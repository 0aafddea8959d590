use oxigraph_cloud::shacl::{
    escape_json_string, report_details, report_json, report_summary, shacl_mode_str, ShaclError,
    ShaclMode,
};

#[test]
fn test_shacl_mode_default_is_off() {
    let mode: ShaclMode = ShaclMode::default();
    assert_eq!(mode, ShaclMode::Off, "Default ShaclMode should be Off");
}

#[test]
fn test_shacl_mode_debug_display() {
    let debug_str = format!("{:?}", ShaclMode::Enforce);
    assert!(debug_str.contains("Enforce"), "Debug output should contain variant name");
}

#[test]
fn test_shacl_mode_clone_eq() {
    let a = ShaclMode::Warn;
    let b = a;
    assert_eq!(a, b, "ShaclMode should be Copy+Clone and Eq");
}

#[test]
fn shacl_mode_from_command_line() {
    assert_eq!(ShaclMode::from_str("off"), Ok(ShaclMode::Off));
    assert_eq!(ShaclMode::from_str("enforce"), Ok(ShaclMode::Enforce));
    assert_eq!(ShaclMode::from_str("strict"), Ok(ShaclMode::Enforce));
    assert_eq!(ShaclMode::from_str("warn"), Ok(ShaclMode::Warn));
    assert_eq!(
        ShaclMode::from_str("Warn"),
        Err("Unknown SHACL mode: Warn. Supported: off, enforce, warn".to_owned())
    );
    assert_eq!(shacl_mode_str(ShaclMode::Off), "off");
    assert_eq!(shacl_mode_str(ShaclMode::Warn), "warn");
    assert_eq!(shacl_mode_str(ShaclMode::Enforce), "enforce");
}

#[test]
fn shacl_error_messages() {
    assert_eq!(
        ShaclError::ShapeCompilation("x".to_owned()).message(),
        "Failed to compile SHACL shapes: x"
    );
    assert_eq!(
        ShaclError::StoreSerialization("x".to_owned()).message(),
        "Failed to serialize store data: x"
    );
    assert_eq!(
        ShaclError::DataLoading("x".to_owned()).message(),
        "Failed to load data for validation: x"
    );
    assert_eq!(ShaclError::ValidationEngine("x".to_owned()).message(), "Validation engine error: x");
}

#[test]
fn json_string_escapes() {
    assert_eq!(escape_json_string("plain"), "\"plain\"");
    assert_eq!(
        escape_json_string("q\"b\\n\nr\rt\t\u{1}\u{1f} é"),
        "\"q\\\"b\\\\n\\nr\\rt\\t\\u0001\\u001f é\""
    );
}

#[test]
fn report_lines_are_trimmed_and_non_blank() {
    let text = "  Violation one  \n\n\t\r\nViolation two\r\n   ";
    assert_eq!(report_details(text), vec!["Violation one".to_owned(), "Violation two".to_owned()]);
    assert!(report_details("").is_empty());
}

#[test]
fn report_as_json() {
    assert_eq!(
        report_json(false, "A\n B \n"),
        "{\"conforms\": false, \"results_count\": 2, \"results\": [{\"detail\": \"A\"}, {\"detail\": \"B\"}]}"
    );
    assert_eq!(
        report_json(true, ""),
        "{\"conforms\": true, \"results_count\": 0, \"results\": []}"
    );
    assert_eq!(
        report_json(false, "say \"x\""),
        "{\"conforms\": false, \"results_count\": 1, \"results\": [{\"detail\": \"say \\\"x\\\"\"}]}"
    );
}

#[test]
fn report_summaries() {
    assert_eq!(report_summary(true, "anything"), "All shapes conform.");
    assert_eq!(report_summary(false, "a\n\nb\nc"), "3 violation(s) found.");
}
