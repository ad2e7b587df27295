//! The rules of the HTTP front door: which submitted form is accepted, and
//! which status answers a request.
//!
//! The front door itself, with its sockets and its JSON, is the caller's.
//! It hands in a form as the text it serialises to, and takes back what to
//! answer.

use vstd::prelude::*;
use vstd::utf8::encode_utf8;

verus! {

/// The longest form, in bytes of its JSON text, that is accepted.
pub const MAX_FORM_LENGTH: usize = 512;

/// The answers of the front door that carry no record.
#[derive(Clone, Copy, Debug, PartialEq, Eq, Structural)]
pub enum CustomHttpResponse {
    InvalidForm,
    InvalidSignature,
    TransactionNotFound,
    TransactionProcessed,
    GeneralError,
}

/// A status code and a body.
#[derive(Clone, Copy, Debug, PartialEq, Eq)]
pub struct HttpReply {
    pub status: u16,
    pub body: &'static str,
}

/// What answers a read request.
#[derive(Clone, Debug, PartialEq, Eq)]
pub enum ReadAnswer {
    /// The record that was found: status 200, the record as the body.
    Record(Vec<u8>),
    /// No record.
    Status(CustomHttpResponse),
}

/// Whether a form is accepted: it could be serialised, and its JSON text
/// has at most `MAX_FORM_LENGTH` bytes.
pub open spec fn form_ok(json: Option<String>) -> bool {
    match json {
        Some(text) => encode_utf8(text@).len() <= MAX_FORM_LENGTH,
        None => false,
    }
}

/// The status code and the body of an answer.
pub fn custom_http_response(response: CustomHttpResponse) -> (reply: HttpReply)
    ensures
        match response {
            CustomHttpResponse::InvalidForm => reply.status == 400 && reply.body@
                == "Invalid form or too large"@,
            CustomHttpResponse::InvalidSignature => reply.status == 401 && reply.body@
                == "Invalid signature"@,
            CustomHttpResponse::TransactionNotFound => reply.status == 404 && reply.body@
                == "Transaction not found"@,
            CustomHttpResponse::TransactionProcessed => reply.status == 201 && reply.body@
                == "Transaction processed"@,
            CustomHttpResponse::GeneralError => reply.status == 500 && reply.body@
                == "General error"@,
        },
{
    match response {
        CustomHttpResponse::InvalidForm => HttpReply {
            status: 400,
            body: "Invalid form or too large",
        },
        CustomHttpResponse::InvalidSignature => HttpReply { status: 401, body: "Invalid signature" },
        CustomHttpResponse::TransactionNotFound => HttpReply {
            status: 404,
            body: "Transaction not found",
        },
        CustomHttpResponse::TransactionProcessed => HttpReply {
            status: 201,
            body: "Transaction processed",
        },
        CustomHttpResponse::GeneralError => HttpReply { status: 500, body: "General error" },
    }
}

/// Whether a submitted form is accepted. `json` is the text that the form
/// serialises to, or none where it could not be serialised.
pub fn validate_form(json: &Option<String>) -> (ok: bool)
    ensures
        ok == form_ok(*json),
{
    match json {
        Some(text) => text.as_str().as_bytes().len() <= MAX_FORM_LENGTH,
        None => false,
    }
}

/// Whether the signature of a request is valid. Every signature is
/// approved: the check of signatures is not part of this library.
pub fn validate_signature(_data: &Option<String>) -> (ok: bool)
    ensures
        ok,
{
    true
}

/// What answers a submitted transaction. A form that is not accepted is
/// answered by `InvalidForm`, a signature that is not valid by
/// `InvalidSignature`. Otherwise the answer is `TransactionProcessed`, and
/// the caller puts the transaction into the table.
pub fn process_transaction(json: &Option<String>) -> (response: CustomHttpResponse)
    ensures
        response == if form_ok(*json) {
            CustomHttpResponse::TransactionProcessed
        } else {
            CustomHttpResponse::InvalidForm
        },
{
    if !validate_form(json) {
        return CustomHttpResponse::InvalidForm;
    }
    if !validate_signature(json) {
        return CustomHttpResponse::InvalidSignature;
    }
    CustomHttpResponse::TransactionProcessed
}

/// What answers a read request, given what the table returned for it: the
/// record, or `TransactionNotFound`.
pub fn read_transaction(request: &Option<String>, found: Option<Vec<u8>>) -> (answer: ReadAnswer)
    ensures
        answer == match found {
            Some(record) => ReadAnswer::Record(record),
            None => ReadAnswer::Status(CustomHttpResponse::TransactionNotFound),
        },
{
    if !validate_signature(request) {
        return ReadAnswer::Status(CustomHttpResponse::InvalidSignature);
    }
    match found {
        Some(record) => ReadAnswer::Record(record),
        None => ReadAnswer::Status(CustomHttpResponse::TransactionNotFound),
    }
}

} // verus!
