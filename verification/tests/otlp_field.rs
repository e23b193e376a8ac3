use dataflow_extensions::azure_monitor_exporter::otlp_field::{
    EscapeError, FieldError, LogRecordField, OtlpField, PathEnd, ResourceField, ScopeField,
    SourcePath, decode_attribute_key, decode_escaped, parse_otlp_field,
};

fn field(name: &str) -> PathEnd {
    PathEnd::Field(name.to_string())
}

fn attribute(literal: &str) -> PathEnd {
    PathEnd::Attribute(literal.to_string())
}

#[test]
fn fields_are_found_by_name() {
    assert!(matches!(
        parse_otlp_field(&SourcePath::Resource(field("dropped_attributes_count"))),
        Ok(OtlpField::ResourceField(ResourceField::DroppedAttributesCount))
    ));
    assert!(matches!(
        parse_otlp_field(&SourcePath::Scope(field("version"))),
        Ok(OtlpField::ScopeField(ScopeField::Version))
    ));
    assert!(matches!(
        parse_otlp_field(&SourcePath::LogRecord(field("Severity_TEXT"))),
        Ok(OtlpField::LogRecordField(LogRecordField::SeverityText))
    ));
    assert_eq!(LogRecordField::from_str_ci("EVENT_NAME"), Some(LogRecordField::EventName));
    assert_eq!(LogRecordField::from_str_ci("event name"), None);
}

#[test]
fn unknown_fields_are_named_in_the_error() {
    let errors = vec![
        parse_otlp_field(&SourcePath::Resource(field("Dropped_Attributes_Count"))).unwrap_err(),
        parse_otlp_field(&SourcePath::Scope(field("nope"))).unwrap_err(),
        parse_otlp_field(&SourcePath::LogRecord(field("nope"))).unwrap_err(),
    ];
    let messages: Vec<String> = errors.iter().map(FieldError::message).collect();
    assert_eq!(
        messages,
        vec![
            "unknown resource field 'Dropped_Attributes_Count'",
            "unknown scope field 'nope'",
            "unknown log_record field 'nope'",
        ]
    );
}

#[test]
fn attribute_keys_are_decoded() {
    assert!(matches!(
        parse_otlp_field(&SourcePath::Resource(attribute("\"service.name\""))),
        Ok(OtlpField::ResourceAttribute(key)) if key == "service.name"
    ));
    assert!(matches!(
        parse_otlp_field(&SourcePath::Scope(attribute("'a\\'b'"))),
        Ok(OtlpField::ScopeAttribute(key)) if key == "a'b"
    ));
    assert!(matches!(
        parse_otlp_field(&SourcePath::LogRecord(attribute("\"\""))),
        Ok(OtlpField::LogRecordAttribute(key)) if key.is_empty()
    ));
    assert!(matches!(decode_attribute_key("\""), Err(FieldError::Unquoted)));
}

#[test]
fn escapes_are_read() {
    assert_eq!(decode_escaped("plain").unwrap(), "plain");
    assert_eq!(
        decode_escaped("\\n\\r\\t\\b\\f\\\\\\/\\'\\\"").unwrap(),
        "\n\r\t\u{8}\u{c}\\/'\""
    );
    assert_eq!(decode_escaped("\\u00e9\\u4E2D!").unwrap(), "\u{e9}\u{4e2d}!");
    assert_eq!(decode_escaped("\u{1f600}").unwrap(), "\u{1f600}");
}

#[test]
fn bad_escapes_are_explained() {
    assert_eq!(decode_escaped("a\\"), Err(EscapeError::DanglingBackslash));
    assert_eq!(decode_escaped("\\u12g4"), Err(EscapeError::ShortUnicodeEscape));
    assert_eq!(decode_escaped("\\u12"), Err(EscapeError::ShortUnicodeEscape));
    assert_eq!(decode_escaped("\\ud83d"), Err(EscapeError::NotAScalar(0xd83d)));
    assert_eq!(decode_escaped("\\x"), Err(EscapeError::UnknownEscape('x')));
    let messages: Vec<String> = vec![
        EscapeError::DanglingBackslash.message(),
        EscapeError::ShortUnicodeEscape.message(),
        EscapeError::NotAScalar(0xd83d).message(),
        EscapeError::UnknownEscape('x').message(),
    ];
    assert_eq!(
        messages,
        vec![
            "dangling backslash",
            "\\u escape requires 4 hex digits",
            "\\uD83D is not a valid Unicode scalar value (surrogates U+D800..U+DFFF are not allowed; write the literal character instead)",
            "unknown escape sequence '\\x'",
        ]
    );
    assert_eq!(
        FieldError::Escape(EscapeError::DanglingBackslash).message(),
        "dangling backslash"
    );
}
