//! How `yore` JSON payloads are recognized and read, apart from the JSON
//! decoding itself: which shape a query payload is taken as, what each
//! refusal says, and where the original query text is found.
use vstd::prelude::*;

verus! {

/// The shape a query payload was recognized as.
#[derive(Debug, PartialEq, Eq, Structural)]
pub enum QueryPayloadShape {
    /// A bare JSON array of query results.
    ResultArray,
    /// An object holding `results` (and possibly `diagnostics`).
    Envelope,
}

/// Why a `yore` payload on stdin was refused.
#[derive(Debug)]
pub enum PayloadError {
    /// The query payload was not JSON at all.
    InvalidQueryJson,
    /// The query payload is `yore`'s error object; it carries the error.
    QueryErrorPayload(String),
    /// The query payload is JSON of no recognized shape.
    UnrecognizedQuery,
    /// The vocabulary payload could not be read.
    InvalidVocabulary,
    /// The duplicates payload could not be read.
    InvalidDuplicates,
}

/// The text a `PayloadError` is reported with.
pub open spec fn payload_error_text(e: PayloadError) -> Seq<char> {
    match e {
        PayloadError::InvalidQueryJson => "failed to parse query JSON"@,
        PayloadError::QueryErrorPayload(err) => "yore query returned an error payload: "@ + err@,
        PayloadError::UnrecognizedQuery => "stdin was valid JSON, but not a recognized yore query payload"@,
        PayloadError::InvalidVocabulary => "stdin was not a recognized yore vocabulary payload: failed to parse vocabulary JSON"@,
        PayloadError::InvalidDuplicates => "stdin was not a recognized yore dupes payload: failed to parse dupes JSON"@,
    }
}

impl PayloadError {
    /// The text this error is reported with.
    pub fn message(&self) -> (res: String)
        ensures
            res@ == payload_error_text(*self),
    {
        match self {
            PayloadError::InvalidQueryJson => "failed to parse query JSON".to_owned(),
            PayloadError::QueryErrorPayload(err) => {
                let mut s = "yore query returned an error payload: ".to_owned();
                s.append(err.as_str());
                s
            },
            PayloadError::UnrecognizedQuery => "stdin was valid JSON, but not a recognized yore query payload".to_owned(),
            PayloadError::InvalidVocabulary => "stdin was not a recognized yore vocabulary payload: failed to parse vocabulary JSON".to_owned(),
            PayloadError::InvalidDuplicates => "stdin was not a recognized yore dupes payload: failed to parse dupes JSON".to_owned(),
        }
    }
}

/// How a query payload is read, given what decoding it found: whether it is
/// JSON, whether it reads as an array of results, whether it reads as an
/// envelope, and the `error` text if it reads as `yore`'s error object. The
/// shapes are tried in that order.
pub open spec fn shape_rule(
    is_json: bool,
    is_result_array: bool,
    is_envelope: bool,
    error_field: Option<String>,
) -> Result<QueryPayloadShape, PayloadError> {
    if !is_json {
        Err(PayloadError::InvalidQueryJson)
    } else if is_result_array {
        Ok(QueryPayloadShape::ResultArray)
    } else if is_envelope {
        Ok(QueryPayloadShape::Envelope)
    } else {
        match error_field {
            Some(e) => Err(PayloadError::QueryErrorPayload(e)),
            None => Err(PayloadError::UnrecognizedQuery),
        }
    }
}

/// The shape of a query payload, as `shape_rule` states.
pub fn query_payload_shape(
    is_json: bool,
    is_result_array: bool,
    is_envelope: bool,
    error_field: Option<String>,
) -> (res: Result<QueryPayloadShape, PayloadError>)
    ensures
        res == shape_rule(is_json, is_result_array, is_envelope, error_field),
{
    if !is_json {
        return Err(PayloadError::InvalidQueryJson);
    }
    if is_result_array {
        return Ok(QueryPayloadShape::ResultArray);
    }
    if is_envelope {
        return Ok(QueryPayloadShape::Envelope);
    }
    match error_field {
        Some(e) => Err(PayloadError::QueryErrorPayload(e)),
        None => Err(PayloadError::UnrecognizedQuery),
    }
}

/// Whether a text is JSON, as `serde_json` reads it.
pub uninterp spec fn json_text_is_valid(input: Seq<char>) -> bool;

/// `serde_json::from_str::<serde_json::Value>`: whether `input` parses as a
/// JSON value. Whether it does depends on the text alone, and is named
/// `json_text_is_valid`; nothing more is stated of it.
#[verifier::external_body]
fn is_json(input: &str) -> (res: bool)
    ensures
        res == json_text_is_valid(input@),
{
    serde_json::from_str::<serde_json::Value>(input).is_ok()
}

/// The shape of the query payload `input`: checks that it is JSON, then
/// reads it as `shape_rule` states, given whether it reads as an array of
/// results, as an envelope, or as `yore`'s error object.
pub fn classify_query_payload(
    input: &str,
    is_result_array: bool,
    is_envelope: bool,
    error_field: Option<String>,
) -> (res: Result<QueryPayloadShape, PayloadError>)
    ensures
        res == shape_rule(json_text_is_valid(input@), is_result_array, is_envelope, error_field),
{
    let valid = is_json(input);
    query_payload_shape(valid, is_result_array, is_envelope, error_field)
}

/// The first query text among the results, if any carries one.
pub open spec fn first_result_query(result_queries: Seq<Option<String>>) -> Option<Seq<char>>
    decreases result_queries.len(),
{
    if result_queries.len() == 0 {
        None
    } else {
        match result_queries[0] {
            Some(q) => Some(q@),
            None => first_result_query(result_queries.drop_first()),
        }
    }
}

/// The query a payload was produced for: the envelope's own `query` text,
/// else the first `query` text carried by a result, else none.
pub fn original_query(envelope_query: Option<&str>, result_queries: &Vec<Option<String>>) -> (res: Option<String>)
    ensures
        match envelope_query {
            Some(q) => res matches Some(r) && r@ == q@,
            None => match first_result_query(result_queries@) {
                Some(q) => res matches Some(r) && r@ == q,
                None => res is None,
            },
        },
{
    if let Some(q) = envelope_query {
        return Some(q.to_owned());
    }
    let mut i: usize = 0;
    assert(result_queries@.skip(0) =~= result_queries@);
    while i < result_queries.len()
        invariant
            envelope_query is None,
            i <= result_queries@.len(),
            first_result_query(result_queries@) == first_result_query(result_queries@.skip(i as int)),
        decreases result_queries@.len() - i,
    {
        assert(result_queries@.skip(i as int)[0] == result_queries@[i as int]);
        if let Some(q) = &result_queries[i] {
            return Some(q.clone());
        }
        assert(result_queries@.skip(i as int).drop_first() =~= result_queries@.skip(i + 1));
        i = i + 1;
    }
    None
}

} // verus!
