//! The cache service's protocol seen from the client: which requests are made,
//! and what an answer means. Sending a request and reading the answer is left
//! to the caller.

use crate::nix_store::views;
use crate::string_map::StringMap;
use crate::text::decimal;
use crate::text::decimal_string;
use crate::text::join;
use url::Url;
use vstd::prelude::*;
use vstd::string::StringExecFns;

verus! {

/// An object offered to the service: its key, and the keys it depends on.
#[derive(Debug)]
pub struct ObjectWithRefs {
    pub key: String,
    pub refs: Vec<String>,
}

/// An `ObjectWithRefs` as plain values.
pub struct ObjectWithRefsView {
    pub key: Seq<char>,
    pub refs: Seq<Seq<char>>,
}

impl View for ObjectWithRefs {
    type V = ObjectWithRefsView;

    open spec fn view(&self) -> ObjectWithRefsView {
        ObjectWithRefsView { key: self.key@, refs: views(self.refs@) }
    }
}

/// What is sent to open a transaction for one closure.
#[derive(Debug)]
pub struct CreatePendingClosureRequest {
    pub closure: String,
    pub objects: Vec<ObjectWithRefs>,
}

/// Where an object that the service lacks is to be sent.
#[derive(Debug)]
pub struct PendingObject {
    pub presigned_url: String,
}

/// The service's answer to a `CreatePendingClosureRequest`: the transaction,
/// and the objects of the request that it does not hold yet.
pub struct CreatePendingClosureResponse {
    pub id: String,
    pub started_at: String,
    pub pending_objects: StringMap<PendingObject>,
}

/// A compressed archive staged for upload.
#[derive(Debug)]
pub struct CompressedFile {
    /// Where the compressed bytes are kept.
    pub path: String,
    /// How many they are.
    pub size: u64,
    /// Their digest, as `sha256:` and its base64 form.
    pub hash: String,
}

/// The three exchanges of the protocol.
#[derive(Debug, Clone, Copy, PartialEq, Eq)]
pub enum Operation {
    CreatePendingClosure,
    Upload,
    CompletePendingClosure,
}

/// Why an exchange with the service failed.
#[derive(Debug)]
pub enum UploadError {
    /// The address of the service, or of one of its endpoints, is no URL.
    InvalidUrl,
    /// The service answered with a status outside 200..300.
    Protocol { operation: Operation, object_key: String, status: u16, body: String },
}

/// The method of a request.
#[derive(Debug, Clone, Copy, PartialEq, Eq)]
pub enum Method {
    Post,
    Put,
}

/// What a request carries.
#[derive(Debug)]
pub enum Payload {
    /// Nothing.
    Empty,
    /// The JSON form of a `CreatePendingClosureRequest`.
    Closure(CreatePendingClosureRequest),
    /// These bytes.
    Bytes(Vec<u8>),
    /// The bytes of the file at this path.
    File(String),
}

/// One request of the protocol, ready to be sent.
#[derive(Debug)]
pub struct Request {
    pub operation: Operation,
    /// The object that the request transfers; empty for the other exchanges.
    pub object_key: String,
    pub method: Method,
    pub url: String,
    /// The `Authorization` header, where the request has one.
    pub authorization: Option<String>,
    /// The `Content-Length` header, where the request fixes one.
    pub content_length: Option<String>,
    pub payload: Payload,
}

/// The normal form of `input` as an absolute URL, where it is one.
pub uninterp spec fn url_parse(input: Seq<char>) -> Option<Seq<char>>;

/// The URL that `reference` denotes relative to the URL `base`, where `base`
/// is an absolute URL and `reference` resolves against it.
pub uninterp spec fn url_join(base: Seq<char>, reference: Seq<char>) -> Option<Seq<char>>;

/// `ParseError` of the `url` crate: why a string is no URL.
#[verifier::external_type_specification]
#[verifier::external_body]
pub struct ExParseError(url::ParseError);

/// `Url::parse` of the `url` crate, with the parsed URL taken as a string.
/// Nothing is claimed of the result but that it depends on `input` alone.
#[verifier::external_body]
fn parse_url(input: &str) -> (r: Result<String, url::ParseError>)
    ensures
        match r {
            Ok(url) => url_parse(input@) == Some(url@),
            Err(_) => url_parse(input@) is None,
        },
{
    match Url::parse(input) {
        Ok(url) => Ok(String::from(url)),
        Err(e) => Err(e),
    }
}

/// `Url::join` of the `url` crate on the URL that `base` parses as, with the
/// joined URL taken as a string. Nothing is claimed of the result but that it
/// depends on `base` and `reference` alone; a `base` that is no URL gives an
/// error.
#[verifier::external_body]
fn join_url(base: &str, reference: &str) -> (r: Result<String, url::ParseError>)
    ensures
        match r {
            Ok(url) => url_join(base@, reference@) == Some(url@),
            Err(_) => url_join(base@, reference@) is None,
        },
{
    match Url::parse(base) {
        Ok(base) => match base.join(reference) {
            Ok(url) => Ok(String::from(url)),
            Err(e) => Err(e),
        },
        Err(e) => Err(e),
    }
}

/// Whether a status announces success.
pub open spec fn is_success(status: u16) -> bool {
    200 <= status < 300
}

/// The `Authorization` header that carries `token`.
pub open spec fn bearer(token: Seq<char>) -> Seq<char> {
    "Bearer "@ + token
}

/// The path of the endpoint that closes the transaction `id`.
pub open spec fn complete_path(id: Seq<char>) -> Seq<char> {
    "api/pending_closures/"@ + id + "/complete"@
}

/// The path of the endpoint that closes the transaction `id`.
pub fn complete_path_of(id: &str) -> (path: String)
    ensures
        path@ == complete_path(id@),
{
    let mut path = join("api/pending_closures/", id);
    path.append("/complete");
    path
}

/// The line that reports a failed exchange.
pub open spec fn failure_message(
    operation: Operation,
    object_key: Seq<char>,
    status: u16,
    body: Seq<char>,
) -> Seq<char> {
    (match operation {
        Operation::CreatePendingClosure => "Failed to create pending closure"@,
        Operation::Upload => "Failed to upload "@ + object_key,
        Operation::CompletePendingClosure => "Failed to complete pending closure"@,
    }) + ": "@ + decimal(status as nat) + " - "@ + body
}

impl UploadError {
    /// The error in words.
    pub fn message(&self) -> (text: String)
        ensures
            text@ == (match *self {
                UploadError::InvalidUrl => "Invalid server URL"@,
                UploadError::Protocol { operation, object_key, status, body } => failure_message(
                    operation,
                    object_key@,
                    status,
                    body@,
                ),
            }),
    {
        match self {
            UploadError::InvalidUrl => String::from_str("Invalid server URL"),
            UploadError::Protocol { operation, object_key, status, body } => {
                let mut text = match operation {
                    Operation::CreatePendingClosure => String::from_str(
                        "Failed to create pending closure",
                    ),
                    Operation::Upload => join("Failed to upload ", object_key.as_str()),
                    Operation::CompletePendingClosure => String::from_str(
                        "Failed to complete pending closure",
                    ),
                };
                text.append(": ");
                let code = decimal_string(*status as u64);
                text.append(code.as_str());
                text.append(" - ");
                text.append(body.as_str());
                text
            },
        }
    }
}

impl Request {
    /// The request that posts `payload` to `url`, authorised by `auth_token`.
    pub fn authorized_post(
        operation: Operation,
        url: String,
        auth_token: &str,
        payload: Payload,
    ) -> (request: Request)
        ensures
            request.operation == operation,
            request.object_key@ == Seq::<char>::empty(),
            request.method == Method::Post,
            request.url == url,
            option_text(request.authorization) == Some(bearer(auth_token@)),
            request.content_length is None,
            request.payload == payload,
    {
        Request {
            operation,
            object_key: String::new(),
            method: Method::Post,
            url,
            authorization: Some(join("Bearer ", auth_token)),
            content_length: None,
            payload,
        }
    }

    /// What the answer to this request means: a status from 200 to 299 is
    /// success, any other fails the exchange and is reported with the body
    /// that came with it.
    pub fn check_response(&self, status: u16, body: String) -> (r: Result<(), UploadError>)
        ensures
            r is Ok == is_success(status),
            r matches Err(e) ==> e matches UploadError::Protocol {
                operation,
                object_key,
                status: reported,
                body: text,
            } && operation == self.operation && object_key@ == self.object_key@ && reported
                == status && text == body,
    {
        if 200 <= status && status < 300 {
            Ok(())
        } else {
            Err(
                UploadError::Protocol {
                    operation: self.operation,
                    object_key: self.object_key.clone(),
                    status,
                    body,
                },
            )
        }
    }
}

/// The client's side of the protocol for one service and one token.
pub struct UploadClient {
    base_url: String,
    auth_token: String,
}

impl UploadClient {
    /// The address of the service, in normal form.
    pub closed spec fn base_url(&self) -> Seq<char> {
        self.base_url@
    }

    /// The token that authorises the client.
    pub closed spec fn auth_token(&self) -> Seq<char> {
        self.auth_token@
    }

    /// A client for the service at `base_url`. An address that is no absolute
    /// URL is refused.
    pub fn new(base_url: &str, auth_token: String) -> (client: Result<UploadClient, UploadError>)
        ensures
            match client {
                Ok(client) => url_parse(base_url@) == Some(client.base_url())
                    && client.auth_token() == auth_token@,
                Err(e) => url_parse(base_url@) is None && e is InvalidUrl,
            },
    {
        match parse_url(base_url) {
            Ok(base_url) => Ok(UploadClient { base_url, auth_token }),
            Err(_) => Err(UploadError::InvalidUrl),
        }
    }

    /// The request that opens a transaction for `closure` and asks which of
    /// `objects` the service lacks.
    pub fn create_pending_closure(&self, closure: String, objects: Vec<ObjectWithRefs>) -> (r:
        Result<Request, UploadError>)
        ensures
            match r {
                Ok(request) => {
                    &&& url_join(self.base_url(), "api/pending_closures"@) == Some(request.url@)
                    &&& request.operation == Operation::CreatePendingClosure
                    &&& request.object_key@ == Seq::<char>::empty()
                    &&& request.method == Method::Post
                    &&& option_text(request.authorization) == Some(bearer(self.auth_token()))
                    &&& request.content_length is None
                    &&& request.payload == Payload::Closure(
                        CreatePendingClosureRequest { closure, objects },
                    )
                },
                Err(e) => url_join(self.base_url(), "api/pending_closures"@) is None
                    && e is InvalidUrl,
            },
    {
        match join_url(self.base_url.as_str(), "api/pending_closures") {
            Ok(url) => Ok(
                Request::authorized_post(
                    Operation::CreatePendingClosure,
                    url,
                    self.auth_token.as_str(),
                    Payload::Closure(CreatePendingClosureRequest { closure, objects }),
                ),
            ),
            Err(_) => Err(UploadError::InvalidUrl),
        }
    }

    /// The request that sends `content` as the object `object_key` to the
    /// address that the service gave for it.
    pub fn upload_bytes_to_presigned_url(
        &self,
        upload_url: &str,
        content: Vec<u8>,
        object_key: &str,
    ) -> (request: Request)
        ensures
            request.operation == Operation::Upload,
            request.object_key@ == object_key@,
            request.method == Method::Put,
            request.url@ == upload_url@,
            request.authorization is None,
            option_text(request.content_length) == Some(decimal(content@.len())),
            request.payload == Payload::Bytes(content),
    {
        let length = decimal_string(content.len() as u64);
        Request {
            operation: Operation::Upload,
            object_key: String::from_str(object_key),
            method: Method::Put,
            url: String::from_str(upload_url),
            authorization: None,
            content_length: Some(length),
            payload: Payload::Bytes(content),
        }
    }

    /// The request that sends the staged archive `compressed_file` as the
    /// object `object_key` to the address that the service gave for it. The
    /// length is announced before the first byte is sent.
    pub fn upload_compressed_file(
        &self,
        upload_url: &str,
        compressed_file: &CompressedFile,
        object_key: &str,
    ) -> (request: Request)
        ensures
            request.operation == Operation::Upload,
            request.object_key@ == object_key@,
            request.method == Method::Put,
            request.url@ == upload_url@,
            request.authorization is None,
            option_text(request.content_length) == Some(decimal(compressed_file.size as nat)),
            request.payload matches Payload::File(path) && path@ == compressed_file.path@,
    {
        Request {
            operation: Operation::Upload,
            object_key: String::from_str(object_key),
            method: Method::Put,
            url: String::from_str(upload_url),
            authorization: None,
            content_length: Some(decimal_string(compressed_file.size)),
            payload: Payload::File(compressed_file.path.clone()),
        }
    }

    /// The request that closes the transaction `closure_id`.
    pub fn complete_pending_closure(&self, closure_id: &str) -> (r: Result<Request, UploadError>)
        ensures
            match r {
                Ok(request) => {
                    &&& url_join(self.base_url(), complete_path(closure_id@)) == Some(request.url@)
                    &&& request.operation == Operation::CompletePendingClosure
                    &&& request.object_key@ == Seq::<char>::empty()
                    &&& request.method == Method::Post
                    &&& option_text(request.authorization) == Some(bearer(self.auth_token()))
                    &&& request.content_length is None
                    &&& request.payload is Empty
                },
                Err(e) => url_join(self.base_url(), complete_path(closure_id@)) is None
                    && e is InvalidUrl,
            },
    {
        let path = complete_path_of(closure_id);
        match join_url(self.base_url.as_str(), path.as_str()) {
            Ok(url) => Ok(
                Request::authorized_post(
                    Operation::CompletePendingClosure,
                    url,
                    self.auth_token.as_str(),
                    Payload::Empty,
                ),
            ),
            Err(_) => Err(UploadError::InvalidUrl),
        }
    }
}

/// The text of an optional header.
pub open spec fn option_text(s: Option<String>) -> Option<Seq<char>> {
    match s {
        Some(s) => Some(s@),
        None => None,
    }
}

} // verus!
