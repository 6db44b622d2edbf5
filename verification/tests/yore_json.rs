use wyrd::yore_json::{
    classify_query_payload, original_query, query_payload_shape, PayloadError, QueryPayloadShape,
};

#[test]
fn parses_query_array_payload() {
    // `[{"path":"docs/auth.md","score":1.2,"query":"auth"}]`: JSON that reads as a result array.
    let shape = query_payload_shape(true, true, false, None).expect("should parse");
    assert_eq!(shape, QueryPayloadShape::ResultArray);
    let result_queries = vec![Some("auth".to_string())];
    assert_eq!(original_query(None, &result_queries), Some("auth".to_string()));
}

#[test]
fn parses_query_wrapper_payload() {
    // An object with `query`, `results` and `diagnostics`: it reads as an envelope.
    let shape = query_payload_shape(true, false, true, None).expect("should parse");
    assert_eq!(shape, QueryPayloadShape::Envelope);
    assert_eq!(original_query(Some("auth"), &vec![None]), Some("auth".to_string()));
}

#[test]
fn rejects_query_error_payload() {
    // `{"query":"the and","error":"no_query_terms"}` reads only as yore's error object.
    let error = query_payload_shape(true, false, false, Some("no_query_terms".to_string()))
        .expect_err("should fail");
    assert!(error.message().contains("no_query_terms"));
    assert_eq!(error.message(), "yore query returned an error payload: no_query_terms");
}

#[test]
fn array_shape_wins_over_envelope() {
    assert_eq!(
        query_payload_shape(true, true, true, Some("e".into())).expect("ok"),
        QueryPayloadShape::ResultArray
    );
}

#[test]
fn invalid_and_unrecognized_query_payloads() {
    let err = query_payload_shape(false, true, true, None).expect_err("not json");
    assert!(matches!(err, PayloadError::InvalidQueryJson));
    assert_eq!(err.message(), "failed to parse query JSON");
    let err = query_payload_shape(true, false, false, None).expect_err("unrecognized");
    assert_eq!(
        err.message(),
        "stdin was valid JSON, but not a recognized yore query payload"
    );
    assert_eq!(
        PayloadError::InvalidVocabulary.message(),
        "stdin was not a recognized yore vocabulary payload: failed to parse vocabulary JSON"
    );
    assert_eq!(
        PayloadError::InvalidDuplicates.message(),
        "stdin was not a recognized yore dupes payload: failed to parse dupes JSON"
    );
}

#[test]
fn original_query_prefers_envelope_then_first_result() {
    let results = vec![None, Some("second".to_string()), Some("third".to_string())];
    assert_eq!(original_query(Some("top"), &results), Some("top".to_string()));
    assert_eq!(original_query(None, &results), Some("second".to_string()));
    assert_eq!(original_query(None, &vec![None, None]), None);
    assert_eq!(original_query(None, &Vec::new()), None);
}

#[test]
fn classify_checks_json_text() {
    let err = classify_query_payload("not json at all", true, true, None).expect_err("invalid");
    assert!(matches!(err, PayloadError::InvalidQueryJson));
    assert_eq!(
        classify_query_payload(r#"[{"path":"docs/auth.md","score":1.2}]"#, true, false, None).expect("array"),
        QueryPayloadShape::ResultArray
    );
    let err = classify_query_payload(
        r#"{"query":"the and","error":"no_query_terms"}"#,
        false,
        false,
        Some("no_query_terms".to_string()),
    )
    .expect_err("error payload");
    assert!(err.message().contains("no_query_terms"));
}
