use kad_dht::front::{
    custom_http_response, process_transaction, read_transaction, validate_form, validate_signature,
    CustomHttpResponse, HttpReply, ReadAnswer, MAX_FORM_LENGTH,
};

#[test]
fn each_answer_has_its_status_and_body() {
    assert_eq!(
        custom_http_response(CustomHttpResponse::InvalidForm),
        HttpReply { status: 400, body: "Invalid form or too large" }
    );
    assert_eq!(
        custom_http_response(CustomHttpResponse::InvalidSignature),
        HttpReply { status: 401, body: "Invalid signature" }
    );
    assert_eq!(
        custom_http_response(CustomHttpResponse::TransactionNotFound),
        HttpReply { status: 404, body: "Transaction not found" }
    );
    assert_eq!(
        custom_http_response(CustomHttpResponse::TransactionProcessed),
        HttpReply { status: 201, body: "Transaction processed" }
    );
    assert_eq!(
        custom_http_response(CustomHttpResponse::GeneralError),
        HttpReply { status: 500, body: "General error" }
    );
}

#[test]
fn a_form_of_at_most_512_bytes_is_valid() {
    assert_eq!(MAX_FORM_LENGTH, 512);
    assert!(validate_form(&Some("{}".to_string())));
    assert!(validate_form(&Some("x".repeat(512))));
    assert!(!validate_form(&Some("x".repeat(513))));
    assert!(!validate_form(&None));
    assert!(validate_form(&Some("é".repeat(256))));
    assert!(!validate_form(&Some("é".repeat(257))));
}

#[test]
fn every_signature_is_approved() {
    assert!(validate_signature(&None));
    assert!(validate_signature(&Some("anything".to_string())));
}

#[test]
fn a_transaction_is_processed_or_refused_as_an_invalid_form() {
    assert_eq!(
        process_transaction(&Some("{\"payload\":\"p\"}".to_string())),
        CustomHttpResponse::TransactionProcessed
    );
    assert_eq!(process_transaction(&Some("x".repeat(600))), CustomHttpResponse::InvalidForm);
    assert_eq!(process_transaction(&None), CustomHttpResponse::InvalidForm);
}

#[test]
fn a_read_is_answered_by_the_record_or_not_found() {
    assert_eq!(
        read_transaction(&Some("{}".to_string()), Some(b"record".to_vec())),
        ReadAnswer::Record(b"record".to_vec())
    );
    assert_eq!(
        read_transaction(&Some("{}".to_string()), None),
        ReadAnswer::Status(CustomHttpResponse::TransactionNotFound)
    );
}
