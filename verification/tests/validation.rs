use oxigraph_cloud::server::check_shapes_loaded;
use oxigraph_cloud::shacl::{
    outcome_of_report, store_to_ntriples, validates_after_write, validation_body, write_verdict,
    ReportData, ShaclError, ShaclMode, ShaclValidator, ValidationOutcome,
};
use oxigraph_cloud::store::{GraphName, Literal, Quad, QuadStore, Subject, Term};

const PERSON_SHAPES: &str = "
    @prefix sh: <http://www.w3.org/ns/shacl#> .
    @prefix ex: <http://example.org/> .
    @prefix xsd: <http://www.w3.org/2001/XMLSchema#> .

    ex:PersonShape a sh:NodeShape ;
        sh:targetClass ex:Person ;
        sh:property [
            sh:path ex:name ;
            sh:datatype xsd:string ;
            sh:minCount 1 ;
            sh:maxCount 1 ;
        ] .
";

/// Shapes as the engine would hold them; here, their Turtle source.
fn make_validator(mode: ShaclMode) -> ShaclValidator<String> {
    let mut v = ShaclValidator::new(mode);
    v.set_shapes(PERSON_SHAPES.to_owned());
    v
}

fn never_called(_: &String, _: String) -> Result<ReportData, ShaclError> {
    panic!("the engine must not run")
}

/// `ex:bob a ex:Person .`
fn bob_store() -> QuadStore {
    let mut store = QuadStore::new();
    store.insert(Quad {
        subject: Subject::NamedNode("http://example.org/bob".to_owned()),
        predicate: "http://www.w3.org/1999/02/22-rdf-syntax-ns#type".to_owned(),
        object: Term::NamedNode("http://example.org/Person".to_owned()),
        graph_name: GraphName::DefaultGraph,
    });
    store
}

#[test]
fn validator_test_mode_off_skips_validation() {
    let validator: ShaclValidator<String> = ShaclValidator::new(ShaclMode::Off);
    let store = QuadStore::new();
    let outcome = validator.validate(&store, never_called).unwrap();
    assert!(outcome.is_skipped());
}

#[test]
fn test_no_shapes_returns_error() {
    let validator: ShaclValidator<String> = ShaclValidator::new(ShaclMode::Enforce);
    let store = QuadStore::new();
    let result = validator.validate(&store, never_called);
    assert!(result.is_err());
}

#[test]
fn off_mode_skips() {
    let v = make_validator(ShaclMode::Off);
    let store = bob_store();
    assert!(v.validate(&store, never_called).unwrap().is_skipped());
}

#[test]
fn no_shapes_returns_error() {
    let v: ShaclValidator<String> = ShaclValidator::new(ShaclMode::Enforce);
    let store = QuadStore::new();
    match v.validate(&store, never_called).unwrap_err() {
        ShaclError::ValidationEngine(m) => assert_eq!(m, "No shapes loaded"),
        other => panic!("unexpected {}", other.message()),
    }
}

#[test]
fn engine_sees_shapes_and_triples_and_decides() {
    let mut store = bob_store();
    store.insert(Quad {
        subject: Subject::NamedNode("http://example.org/alice".to_owned()),
        predicate: "http://example.org/name".to_owned(),
        object: Term::Literal(Literal::Simple("Alice".to_owned())),
        graph_name: GraphName::NamedNode("http://example.org/g".to_owned()),
    });
    let v = make_validator(ShaclMode::Enforce);
    let expected = "<http://example.org/bob> <http://www.w3.org/1999/02/22-rdf-syntax-ns#type> <http://example.org/Person> .\n\
                    <http://example.org/alice> <http://example.org/name> \"Alice\" .\n";
    assert_eq!(store_to_ntriples(&store), expected);
    let passing = v
        .validate(&store, |shapes: &String, text: String| {
            assert_eq!(shapes, PERSON_SHAPES);
            assert_eq!(text, expected);
            Ok(ReportData { conforms: true, text: String::new() })
        })
        .unwrap();
    assert!(passing.is_passed());
    let failing = v
        .validate(&store, |_: &String, _: String| Ok(ReportData { conforms: false, text: "missing name".to_owned() }))
        .unwrap();
    assert!(failing.is_failed());
    assert_eq!(failing.message(), "Validation failed: missing name");
    let broken = v.validate(&store, |_: &String, _: String| Err(ShaclError::DataLoading("bad".to_owned())));
    assert!(matches!(broken, Err(ShaclError::DataLoading(m)) if m == "bad"));
}

#[test]
fn validator_mode_and_shapes() {
    let mut v: ShaclValidator<String> = ShaclValidator::new(ShaclMode::Warn);
    assert_eq!(v.mode(), ShaclMode::Warn);
    assert!(v.shapes().is_none());
    v.set_mode(ShaclMode::Enforce);
    assert_eq!(v.mode(), ShaclMode::Enforce);
    v.set_shapes("shapes".to_owned());
    assert_eq!(v.shapes().map(|s| s.as_str()), Some("shapes"));
    assert_eq!(v.mode(), ShaclMode::Enforce);
}

#[test]
fn outcomes_and_their_texts() {
    assert!(outcome_of_report(ReportData { conforms: true, text: "x".to_owned() }).is_passed());
    let failed = outcome_of_report(ReportData { conforms: false, text: "x".to_owned() });
    assert!(failed.is_failed() && !failed.is_passed() && !failed.is_skipped());
    assert_eq!(ValidationOutcome::Skipped.message(), "Validation skipped (mode=Off)");
    assert_eq!(ValidationOutcome::Passed.message(), "Validation passed: all shapes conform");
    assert_eq!(validation_body(&ValidationOutcome::Skipped), "{\"conforms\": null, \"skipped\": true}");
    assert_eq!(validation_body(&ValidationOutcome::Passed), "{\"conforms\": true, \"results_count\": 0}");
    assert_eq!(
        validation_body(&failed),
        "{\"conforms\": false, \"results_count\": 1, \"results\": [{\"detail\": \"x\"}]}"
    );
}

#[test]
fn write_verdicts_follow_the_mode() {
    let failed = || Ok(ValidationOutcome::Failed(ReportData { conforms: false, text: "bad".to_owned() }));
    assert!(write_verdict(ShaclMode::Warn, failed()).is_ok());
    let (code, body) = write_verdict(ShaclMode::Enforce, failed()).unwrap_err();
    assert_eq!(code, 422);
    assert_eq!(body, "{\"conforms\": false, \"results_count\": 1, \"results\": [{\"detail\": \"bad\"}]}");
    assert!(write_verdict(ShaclMode::Enforce, Ok(ValidationOutcome::Passed)).is_ok());
    assert!(write_verdict(ShaclMode::Enforce, Ok(ValidationOutcome::Skipped)).is_ok());
    let (code, body) = write_verdict(ShaclMode::Warn, Err(ShaclError::ValidationEngine("boom".to_owned()))).unwrap_err();
    assert_eq!(code, 500);
    assert_eq!(body, "Validation engine error: boom");
    assert!(validates_after_write(true, ShaclMode::Warn));
    assert!(!validates_after_write(true, ShaclMode::Off));
    assert!(!validates_after_write(false, ShaclMode::Enforce));
    assert!(check_shapes_loaded(true).is_ok());
    let (code, body) = check_shapes_loaded(false).unwrap_err();
    assert_eq!(code, 400);
    assert_eq!(body, "No SHACL shapes loaded. Upload shapes first via POST /shacl/shapes");
}

/// `ex:nobody a ex:Person .`: a person without the required name.
fn nobody_store() -> QuadStore {
    let mut store = QuadStore::new();
    store.insert(Quad {
        subject: Subject::NamedNode("http://example.org/nobody".to_owned()),
        predicate: "http://www.w3.org/1999/02/22-rdf-syntax-ns#type".to_owned(),
        object: Term::NamedNode("http://example.org/Person".to_owned()),
        graph_name: GraphName::DefaultGraph,
    });
    store
}

#[test]
fn shacl_tests_test_mode_off_skips_validation() {
    let v = make_validator(ShaclMode::Off);
    let store = nobody_store();
    let result = v.validate(&store, never_called).unwrap();
    assert!(result.is_skipped(), "ShaclMode::Off should produce no validation report");
    assert!(
        v.validate_after_write(&store, never_called).is_ok(),
        "ShaclMode::Off should always accept data"
    );
}

#[test]
fn writes_are_checked_only_with_shapes_and_a_mode() {
    let store = nobody_store();
    let no_shapes: ShaclValidator<String> = ShaclValidator::new(ShaclMode::Enforce);
    assert!(no_shapes.validate_after_write(&store, never_called).is_ok());
    let failing = |_: &String, _: String| Ok(ReportData { conforms: false, text: "missing name".to_owned() });
    let warn = make_validator(ShaclMode::Warn);
    assert!(warn.validate_after_write(&store, failing).is_ok());
    let enforce = make_validator(ShaclMode::Enforce);
    let (code, body) = enforce.validate_after_write(&store, failing).unwrap_err();
    assert_eq!(code, 422);
    assert_eq!(body, "{\"conforms\": false, \"results_count\": 1, \"results\": [{\"detail\": \"missing name\"}]}");
    let passing = |_: &String, _: String| Ok(ReportData { conforms: true, text: String::new() });
    assert!(enforce.validate_after_write(&store, passing).is_ok());
    let broken = |_: &String, _: String| Err(ShaclError::ValidationEngine("boom".to_owned()));
    let (code, body) = enforce.validate_after_write(&store, broken).unwrap_err();
    assert_eq!(code, 500);
    assert_eq!(body, "Validation engine error: boom");
}
