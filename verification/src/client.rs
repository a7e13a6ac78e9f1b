//! Reading an object through a host that owns the network and the keys.
//!
//! The host's work is described as steps: each says what to read next, or what
//! the outcome is.

use crate::answer;
use crate::bytes;
use crate::chunked;
use crate::error::{HttpError, HttpErrorKind};
use crate::list;
use crate::net;
use crate::request;
use crate::response;
use crate::sigv4;
use crate::text;
use crate::uri;
use vstd::prelude::*;
use vstd::string::*;
use vstd::utf8::*;

verus! {

pub const HOST_READ_BYTES: u32 = 1024 * 1024;

pub const MAX_WIRE_OVERHEAD_BYTES: usize = 64 * 1024;

/// What kind of failure an [`Error`] reports.
#[derive(Clone, Copy, Debug, Eq, PartialEq, Structural)]
pub enum ErrorClass {
    InvalidRequest,
    Protocol,
    Denied,
    NotFound,
    Server,
    ClockSkew,
    Limit,
    Unsupported,
    Transport,
}

/// A failure as it is returned to a caller.
#[derive(Clone, Debug, Eq, PartialEq)]
pub struct Error {
    pub class: ErrorClass,
    pub status: Option<u16>,
    pub message: String,
}

/// The model of [`Error`].
#[verifier::ext_equal]
pub struct ErrorModel {
    pub class: ErrorClass,
    pub status: Option<u16>,
    pub message: Seq<char>,
}

impl View for Error {
    type V = ErrorModel;

    open spec fn view(&self) -> ErrorModel {
        ErrorModel { class: self.class, status: self.status, message: self.message@ }
    }
}

/// An error without a status.
pub open spec fn plain_error(class: ErrorClass, message: &str) -> ErrorModel {
    ErrorModel { class, status: None, message: message@ }
}

fn error(class: ErrorClass, message: &str) -> (result: Error)
    ensures
        result@ == plain_error(class, message),
{
    Error { class, status: None, message: message.to_owned() }
}

/// The class of each kind of error.
#[verifier::allow_in_spec]
pub fn error_class(kind: HttpErrorKind) -> ErrorClass
    returns
        (match kind {
            HttpErrorKind::InvalidRequest => ErrorClass::InvalidRequest,
            HttpErrorKind::Protocol => ErrorClass::Protocol,
            HttpErrorKind::Denied => ErrorClass::Denied,
            HttpErrorKind::NotFound => ErrorClass::NotFound,
            HttpErrorKind::Server => ErrorClass::Server,
            HttpErrorKind::ClockSkew => ErrorClass::ClockSkew,
            HttpErrorKind::Limit => ErrorClass::Limit,
            HttpErrorKind::Unsupported => ErrorClass::Unsupported,
        }),
{
    match kind {
        HttpErrorKind::InvalidRequest => ErrorClass::InvalidRequest,
        HttpErrorKind::Protocol => ErrorClass::Protocol,
        HttpErrorKind::Denied => ErrorClass::Denied,
        HttpErrorKind::NotFound => ErrorClass::NotFound,
        HttpErrorKind::Server => ErrorClass::Server,
        HttpErrorKind::ClockSkew => ErrorClass::ClockSkew,
        HttpErrorKind::Limit => ErrorClass::Limit,
        HttpErrorKind::Unsupported => ErrorClass::Unsupported,
    }
}

/// The error that a caller sees.
pub open spec fn reported(error: HttpError) -> ErrorModel {
    ErrorModel {
        class: error_class(error.kind),
        status: error.status,
        message: error.message@,
    }
}

pub fn client_error(error: &HttpError) -> (result: Error)
    ensures
        result@ == reported(*error),
{
    Error {
        class: error_class(error.kind),
        status: error.status,
        message: error.message.to_owned(),
    }
}

/// The class of each failure of the signer.
#[verifier::allow_in_spec]
pub fn sigv4_error_class(error: sigv4::Error) -> ErrorClass
    returns
        (match error {
            sigv4::Error::Denied => ErrorClass::Denied,
            sigv4::Error::InvalidRequest => ErrorClass::InvalidRequest,
            sigv4::Error::Limit => ErrorClass::Limit,
            sigv4::Error::Unavailable => ErrorClass::Transport,
            sigv4::Error::Timeout => ErrorClass::Transport,
            sigv4::Error::Tls => ErrorClass::Transport,
            sigv4::Error::Io => ErrorClass::Transport,
            sigv4::Error::Expired => ErrorClass::Transport,
            sigv4::Error::Internal => ErrorClass::Transport,
        }),
{
    match error {
        sigv4::Error::Denied => ErrorClass::Denied,
        sigv4::Error::InvalidRequest => ErrorClass::InvalidRequest,
        sigv4::Error::Limit => ErrorClass::Limit,
        sigv4::Error::Unavailable
        | sigv4::Error::Timeout
        | sigv4::Error::Tls
        | sigv4::Error::Io
        | sigv4::Error::Expired
        | sigv4::Error::Internal => ErrorClass::Transport,
    }
}

/// What is said of each failure of the signer.
pub open spec fn sigv4_message(error: sigv4::Error) -> Seq<char> {
    match error {
        sigv4::Error::Denied => "signed exchange was denied"@,
        sigv4::Error::InvalidRequest => "signed exchange request was invalid"@,
        sigv4::Error::Limit => "signed exchange byte limit was exceeded"@,
        sigv4::Error::Expired => "signed exchange expired"@,
        _ => "signed exchange failed"@,
    }
}

pub fn sigv4_error(error: sigv4::Error) -> (result: Error)
    ensures
        result@ == (ErrorModel {
            class: sigv4_error_class(error),
            status: None,
            message: sigv4_message(error),
        }),
{
    let message = match error {
        sigv4::Error::Denied => "signed exchange was denied",
        sigv4::Error::InvalidRequest => "signed exchange request was invalid",
        sigv4::Error::Limit => "signed exchange byte limit was exceeded",
        sigv4::Error::Expired => "signed exchange expired",
        sigv4::Error::Unavailable
        | sigv4::Error::Timeout
        | sigv4::Error::Tls
        | sigv4::Error::Io
        | sigv4::Error::Internal => "signed exchange failed",
    };
    Error { class: sigv4_error_class(error), status: None, message: message.to_owned() }
}

/// What is said of each failure of the network: nothing of its details.
pub open spec fn net_failure(error: net::Error) -> ErrorModel {
    match error {
        net::Error::Denied(_) => plain_error(
            ErrorClass::Denied,
            "network endpoint access was denied",
        ),
        net::Error::Limit(_) => plain_error(ErrorClass::Limit, "network byte limit was exceeded"),
        _ => plain_error(ErrorClass::Transport, "network operation failed"),
    }
}

pub fn net_error(error: net::Error) -> (result: Error)
    ensures
        result@ == net_failure(error),
{
    match error {
        net::Error::Denied(_details) => self::error(
            ErrorClass::Denied,
            "network endpoint access was denied",
        ),
        net::Error::Limit(_details) => self::error(
            ErrorClass::Limit,
            "network byte limit was exceeded",
        ),
        net::Error::Unavailable(_details)
        | net::Error::Timeout(_details)
        | net::Error::Tls(_details)
        | net::Error::Io(_details) => self::error(
            ErrorClass::Transport,
            "network operation failed",
        ),
    }
}

pub fn object_limit(max_bytes: u32) -> (result: Result<usize, Error>)
    ensures
        result == Ok::<usize, Error>(max_bytes as usize),
{
    Ok(max_bytes as usize)
}

/// How many bytes of a response may come over the wire, framing included.
pub open spec fn wire_bytes(max: int) -> int {
    max + MAX_WIRE_OVERHEAD_BYTES
}

pub open spec fn wire_overflow() -> ErrorModel {
    plain_error(ErrorClass::Limit, "S3 response byte limit overflowed")
}

pub fn wire_limit(max_bytes: usize) -> (result: Result<usize, Error>)
    ensures
        match result {
            Ok(limit) => limit == wire_bytes(max_bytes as int),
            Err(error) => error@ == wire_overflow() && wire_bytes(max_bytes as int) > usize::MAX,
        },
{
    match max_bytes.checked_add(MAX_WIRE_OVERHEAD_BYTES) {
        Some(limit) => Ok(limit),
        None => Err(error(ErrorClass::Limit, "S3 response byte limit overflowed")),
    }
}

/// A byte that may stand in a signing grant's name.
#[verifier::allow_in_spec]
pub fn is_grant_byte(b: u8) -> bool
    returns
        bytes::is_lowercase(b) || bytes::is_digit(b) || b == '_' as u8 || b == '-' as u8,
{
    bytes::is_lowercase(b) || bytes::is_digit(b) || b == '_' as u8 || b == '-' as u8
}

/// One to sixty-four lower-case letters, digits, underscores and hyphens, the
/// first of them a letter.
pub open spec fn is_signing_grant(grant: Seq<u8>) -> bool {
    &&& 1 <= grant.len() <= 64
    &&& bytes::is_lowercase(grant[0])
    &&& bytes::all(grant, |b: u8| is_grant_byte(b))
}

pub fn valid_signing_grant(grant: &str) -> (result: bool)
    ensures
        result == is_signing_grant(grant.spec_bytes()),
{
    let grant = grant.as_bytes();
    !grant.is_empty() && grant.len() <= 64 && bytes::is_lowercase(grant[0]) && bytes::all_bytes(
        grant,
        is_grant_byte,
        Ghost(|b: u8| is_grant_byte(b)),
    )
}

/// The request that a host is asked to sign: it holds a grant's name, but no
/// endpoint, no credential and no time.
pub open spec fn signed_request(grant: Seq<u8>, bucket: Seq<u8>, key: Seq<u8>, max: int) -> Result<
    sigv4::RequestModel,
    ErrorModel,
> {
    if !is_signing_grant(grant) {
        Err(plain_error(ErrorClass::InvalidRequest, "invalid SigV4 signing grant"))
    } else {
        match uri::signed_get_uri(bucket, key, max) {
            Err(error) => Err(reported(error)),
            Ok(canonical_uri) => Ok(
                sigv4::RequestModel {
                    signing_grant: grant,
                    method: sigv4::Method::Get,
                    canonical_uri,
                    canonical_query: Seq::empty(),
                    headers: Seq::empty(),
                    max_response_bytes: wire_bytes(max) as u64,
                },
            ),
        }
    }
}

pub fn build_sigv4_request(signing_grant: &str, bucket: &str, key: &str, max_bytes: usize) -> (result:
    Result<sigv4::Request, Error>)
    ensures
        match signed_request(
            signing_grant.spec_bytes(),
            bucket.spec_bytes(),
            key.spec_bytes(),
            max_bytes as int,
        ) {
            Ok(model) => result matches Ok(request) && request@ == model,
            Err(error) => result matches Err(e) && e@ == error,
        },
{
    if !valid_signing_grant(signing_grant) {
        return Err(error(ErrorClass::InvalidRequest, "invalid SigV4 signing grant"));
    }
    let canonical_uri = match uri::build_sigv4_canonical_uri(bucket, key, max_bytes) {
        Ok(canonical_uri) => canonical_uri,
        Err(error) => {
            return Err(client_error(&error));
        },
    };
    let max_response_bytes: u64 = wire_limit(max_bytes)? as u64;
    let request = sigv4::Request {
        signing_grant: signing_grant.to_owned(),
        method: sigv4::Method::Get,
        canonical_uri,
        canonical_query: String::new(),
        headers: Vec::new(),
        max_response_bytes,
    };
    proof {
        assert(request.canonical_query@ =~= Seq::<char>::empty());
        assert(request.headers@ =~= Seq::<(String, String)>::empty());
    }
    Ok(request)
}

/// What has come of a response to a request for an object.
#[verifier::ext_equal]
pub struct ExchangeModel {
    pub raw: Seq<u8>,
    pub max: int,
    pub signed: bool,
}

/// A response that is being read: what has come of it, and the limits that it
/// is read under.
pub struct Exchange {
    raw: Vec<u8>,
    max_bytes: usize,
    wire_limit: usize,
    signed: bool,
}

impl View for Exchange {
    type V = ExchangeModel;

    closed spec fn view(&self) -> ExchangeModel {
        ExchangeModel { raw: self.raw@, max: self.max_bytes as int, signed: self.signed }
    }
}

/// What to do next with a response.
pub enum Step {
    /// Read at most this many bytes, and hand them in.
    Read { exchange: Exchange, size: u32 },
    /// Return this.
    Done { result: Result<Vec<u8>, Error> },
}

/// The model of [`Step`].
#[verifier::ext_equal]
pub enum StepModel {
    Read { exchange: ExchangeModel, size: int },
    Done { result: Result<Seq<u8>, ErrorModel> },
}

/// The model of an outcome.
pub open spec fn result_model(result: Result<Vec<u8>, Error>) -> Result<Seq<u8>, ErrorModel> {
    match result {
        Ok(object) => Ok(object@),
        Err(error) => Err(error@),
    }
}

impl View for Step {
    type V = StepModel;

    open spec fn view(&self) -> StepModel {
        match *self {
            Step::Read { exchange, size } => StepModel::Read {
                exchange: exchange@,
                size: size as int,
            },
            Step::Done { result } => StepModel::Done { result: result_model(result) },
        }
    }
}

/// What a response is when nothing more comes.
pub open spec fn outcome(exchange: ExchangeModel) -> Result<Seq<u8>, ErrorModel> {
    match response::object_of(exchange.raw, exchange.max, exchange.signed) {
        Ok(object) => Ok(object),
        Err(error) => Err(reported(error)),
    }
}

pub open spec fn wire_exceeded() -> ErrorModel {
    plain_error(ErrorClass::Limit, "S3 response exceeds the wire byte limit")
}

pub open spec fn least(a: int, b: int) -> int {
    if a <= b {
        a
    } else {
        b
    }
}

/// What to do with what has come so far: stop where the wire's limit is
/// reached, where the response is at fault, or where it is complete; otherwise
/// read what is useful, what the wire's limit leaves, or what a host reads at
/// once, whichever is least.
pub open spec fn decision(exchange: ExchangeModel) -> StepModel {
    let wire = wire_bytes(exchange.max);
    if exchange.raw.len() >= wire {
        StepModel::Done { result: Err(wire_exceeded()) }
    } else {
        match response::next_read(exchange.raw, exchange.max, exchange.signed) {
            Err(error) => StepModel::Done { result: Err(reported(error)) },
            Ok(None) => StepModel::Done { result: outcome(exchange) },
            Ok(Some(useful)) => StepModel::Read {
                exchange,
                size: least(least(wire - exchange.raw.len(), useful), HOST_READ_BYTES as int),
            },
        }
    }
}

/// What to do when more has come, or nothing more comes.
pub open spec fn reaction(exchange: ExchangeModel, chunk: Seq<u8>) -> StepModel {
    let next = ExchangeModel { raw: exchange.raw + chunk, ..exchange };
    if chunk.len() == 0 {
        StepModel::Done { result: outcome(exchange) }
    } else if next.raw.len() > wire_bytes(exchange.max) {
        StepModel::Done { result: Err(wire_exceeded()) }
    } else {
        decision(next)
    }
}

fn least_of(a: usize, b: usize) -> (result: usize)
    ensures
        result == least(a as int, b as int),
{
    if a <= b {
        a
    } else {
        b
    }
}

impl Exchange {
    #[verifier::type_invariant]
    spec fn wf(self) -> bool {
        &&& self.wire_limit == wire_bytes(self.max_bytes as int)
        &&& self.raw@.len() <= self.wire_limit
    }

    /// Starts to read a response that may hold an object of `max_bytes` bytes.
    pub fn new(max_bytes: usize, signed: bool) -> (result: Result<Exchange, Error>)
        ensures
            match result {
                Ok(exchange) => exchange@ == (ExchangeModel {
                    raw: Seq::empty(),
                    max: max_bytes as int,
                    signed,
                }) && wire_bytes(max_bytes as int) <= usize::MAX,
                Err(error) => error@ == wire_overflow() && wire_bytes(max_bytes as int)
                    > usize::MAX,
            },
    {
        let wire_limit: usize = wire_limit(max_bytes)?;
        let exchange = Exchange { raw: Vec::new(), max_bytes, wire_limit, signed };
        assert(exchange@ =~= ExchangeModel { raw: Seq::empty(), max: max_bytes as int, signed });
        Ok(exchange)
    }

    fn decode(&self) -> (result: Result<Vec<u8>, Error>)
        ensures
            result_model(result) == outcome(self@),
    {
        let decoded = if self.signed {
            response::decode_signed_response(self.raw.as_slice(), self.max_bytes)
        } else {
            response::decode_response(self.raw.as_slice(), self.max_bytes)
        };
        match decoded {
            Ok(object) => Ok(object),
            Err(error) => Err(client_error(&error)),
        }
    }

    /// Decides what to do with what has come so far.
    pub fn next_step(self) -> (result: Step)
        ensures
            result@ == decision(self@),
    {
        proof {
            use_type_invariant(&self);
        }
        let remaining: usize = self.wire_limit - self.raw.len();
        if remaining == 0 {
            return Step::Done {
                result: Err(
                    error(ErrorClass::Limit, "S3 response exceeds the wire byte limit"),
                ),
            };
        }
        let next = if self.signed {
            response::next_signed_read_size(self.raw.as_slice(), self.max_bytes)
        } else {
            response::next_read_size(self.raw.as_slice(), self.max_bytes)
        };
        match next {
            Err(error) => Step::Done { result: Err(client_error(&error)) },
            Ok(None) => Step::Done { result: self.decode() },
            Ok(Some(useful)) => {
                let size: usize = least_of(
                    least_of(remaining, useful),
                    HOST_READ_BYTES as usize,
                );
                Step::Read { exchange: self, size: size as u32 }
            },
        }
    }

    /// Takes what was read, which is empty where nothing more comes.
    pub fn receive(self, chunk: &[u8]) -> (result: Step)
        ensures
            result@ == reaction(self@, chunk@),
    {
        proof {
            use_type_invariant(&self);
        }
        if chunk.is_empty() {
            return Step::Done { result: self.decode() };
        }
        if chunk.len() > self.wire_limit - self.raw.len() {
            return Step::Done {
                result: Err(
                    error(ErrorClass::Limit, "S3 response exceeds the wire byte limit"),
                ),
            };
        }
        let Exchange { raw, max_bytes, wire_limit, signed } = self;
        let mut raw: Vec<u8> = raw;
        text::append(&mut raw, chunk);
        let next = Exchange { raw, max_bytes, wire_limit, signed };
        assert(next@ =~= ExchangeModel { raw: self@.raw + chunk@, ..self@ });
        next.next_step()
    }
}

/// How an anonymous request reaches its endpoint.
#[derive(Clone, Debug, Eq, PartialEq)]
pub struct AnonymousAuth {
    pub endpoint: String,
}

/// How a presigned request reaches its endpoint. The authority is the one that
/// was signed; it does not change the route.
#[derive(Clone, Debug, Eq, PartialEq)]
pub struct PresignedAuth {
    pub endpoint: String,
    pub query: String,
    pub authority: String,
}

/// How a request is authenticated. The variants exclude each other.
#[derive(Clone, Debug, Eq, PartialEq)]
pub enum Auth {
    Anonymous(AnonymousAuth),
    Presigned(PresignedAuth),
    /// The name of a signing grant of the host.
    Sigv4(String),
}

/// Which object to read, how, and how much of it.
#[derive(Clone, Debug, Eq, PartialEq)]
pub struct ObjectOptions {
    pub bucket: String,
    pub key: String,
    pub auth: Auth,
    pub max_bytes: u32,
}

/// What a host is asked to send.
#[derive(Clone, Debug, Eq, PartialEq)]
pub enum Route {
    /// These bytes over a connection to the named endpoint.
    Raw { endpoint: String, request: Vec<u8> },
    /// A request that the host signs.
    Signed { request: sigv4::Request },
}

/// The model of [`Route`].
#[verifier::ext_equal]
pub enum RouteModel {
    Raw { endpoint: Seq<u8>, request: Seq<u8> },
    Signed { request: sigv4::RequestModel },
}

impl View for Route {
    type V = RouteModel;

    open spec fn view(&self) -> RouteModel {
        match *self {
            Route::Raw { endpoint, request } => RouteModel::Raw {
                endpoint: encode_utf8(endpoint@),
                request: request@,
            },
            Route::Signed { request } => RouteModel::Signed { request: request@ },
        }
    }
}

/// The bytes to send to an endpoint for an object.
pub open spec fn raw_route(
    endpoint: Seq<u8>,
    bucket: Seq<u8>,
    key: Seq<u8>,
    query: Option<Seq<u8>>,
    authority: Option<Seq<u8>>,
    max: int,
) -> Result<RouteModel, ErrorModel> {
    match request::object_request(
        "GET".spec_bytes(),
        endpoint,
        bucket,
        key,
        query,
        authority,
        Some(max),
    ) {
        Err(error) => Err(reported(error)),
        Ok(request) => Ok(RouteModel::Raw { endpoint, request }),
    }
}

/// What to send for an object.
pub open spec fn route_of(options: ObjectOptions) -> Result<RouteModel, ErrorModel> {
    let bucket = encode_utf8(options.bucket@);
    let key = encode_utf8(options.key@);
    let max = options.max_bytes as int;
    match options.auth {
        Auth::Anonymous(auth) => raw_route(
            encode_utf8(auth.endpoint@),
            bucket,
            key,
            None,
            None,
            max,
        ),
        Auth::Presigned(auth) => raw_route(
            encode_utf8(auth.endpoint@),
            bucket,
            key,
            Some(encode_utf8(auth.query@)),
            Some(encode_utf8(auth.authority@)),
            max,
        ),
        Auth::Sigv4(grant) => match signed_request(encode_utf8(grant@), bucket, key, max) {
            Err(error) => Err(error),
            Ok(request) => Ok(RouteModel::Signed { request }),
        },
    }
}

fn plan_raw_get_object(
    endpoint: &str,
    bucket: &str,
    key: &str,
    query: Option<&str>,
    authority: Option<&str>,
    max_bytes: usize,
) -> (result: Result<(Route, Exchange), Error>)
    ensures
        match raw_route(
            endpoint.spec_bytes(),
            bucket.spec_bytes(),
            key.spec_bytes(),
            list::optional_bytes(query),
            list::optional_bytes(authority),
            max_bytes as int,
        ) {
            Ok(route) => result matches Ok(plan) && plan.0@ == route && plan.1@ == (ExchangeModel {
                raw: Seq::empty(),
                max: max_bytes as int,
                signed: false,
            }),
            Err(error) => result matches Err(e) && e@ == error,
        },
{
    let request = match request::build_get_request(
        endpoint,
        bucket,
        key,
        query,
        authority,
        max_bytes,
    ) {
        Ok(request) => request,
        Err(error) => {
            return Err(client_error(&error));
        },
    };
    let exchange = Exchange::new(max_bytes, false)?;
    Ok((Route::Raw { endpoint: endpoint.to_owned(), request }, exchange))
}

fn plan_signed_get_object(signing_grant: &str, bucket: &str, key: &str, max_bytes: usize) -> (result:
    Result<(Route, Exchange), Error>)
    ensures
        match signed_request(
            signing_grant.spec_bytes(),
            bucket.spec_bytes(),
            key.spec_bytes(),
            max_bytes as int,
        ) {
            Ok(request) => result matches Ok(plan) && plan.0@ == (RouteModel::Signed { request })
                && plan.1@ == (ExchangeModel {
                raw: Seq::empty(),
                max: max_bytes as int,
                signed: true,
            }),
            Err(error) => result matches Err(e) && e@ == error,
        },
{
    let request = build_sigv4_request(signing_grant, bucket, key, max_bytes)?;
    let exchange = Exchange::new(max_bytes, true)?;
    Ok((Route::Signed { request }, exchange))
}

/// Decides what to send for an object, and starts to read the response.
pub fn plan_get_object(options: &ObjectOptions) -> (result: Result<(Route, Exchange), Error>)
    ensures
        match route_of(*options) {
            Ok(route) => result matches Ok(plan) && plan.0@ == route && plan.1@ == (ExchangeModel {
                raw: Seq::empty(),
                max: options.max_bytes as int,
                signed: options.auth is Sigv4,
            }),
            Err(error) => result matches Err(e) && e@ == error,
        },
{
    let max_bytes: usize = object_limit(options.max_bytes)?;
    let bucket = options.bucket.as_str();
    let key = options.key.as_str();
    match &options.auth {
        Auth::Anonymous(auth) => plan_raw_get_object(
            auth.endpoint.as_str(),
            bucket,
            key,
            None,
            None,
            max_bytes,
        ),
        Auth::Presigned(auth) => plan_raw_get_object(
            auth.endpoint.as_str(),
            bucket,
            key,
            Some(auth.query.as_str()),
            Some(auth.authority.as_str()),
            max_bytes,
        ),
        Auth::Sigv4(signing_grant) => plan_signed_get_object(
            signing_grant.as_str(),
            bucket,
            key,
            max_bytes,
        ),
    }
}

/// A plain request always goes to the endpoint that its authentication names.
/// The presigned authority changes the `Host` line, and nothing can be injected
/// into the request.
pub proof fn law_routes_follow_the_endpoint(
    endpoint: Seq<u8>,
    bucket: Seq<u8>,
    key: Seq<u8>,
    query: Option<Seq<u8>>,
    authority: Option<Seq<u8>>,
    max: int,
)
    ensures
        raw_route(endpoint, bucket, key, query, authority, max) matches Ok(route) ==> {
            &&& route matches RouteModel::Raw { endpoint: to, request }
            &&& to == endpoint
            &&& request::is_exactly(
                request,
                "GET".spec_bytes(),
                request::with_query(uri::object_uri(bucket, key), query),
                request::named_authority(endpoint, authority),
            )
        },
{
    if raw_route(endpoint, bucket, key, query, authority, max) is Ok {
        reveal_strlit("GET");
        is_ascii_chars_encode_utf8("GET"@);
        request::law_object_requests_are_exact(
            "GET".spec_bytes(),
            endpoint,
            bucket,
            key,
            query,
            authority,
            Some(max),
        );
    }
}

/// A read is never for nothing, never for more than a host reads at once, and
/// never for more than the wire's limit leaves.
pub proof fn law_reads_are_bounded(exchange: ExchangeModel)
    requires
        0 <= exchange.max,
        exchange.raw.len() <= usize::MAX,
    ensures
        decision(exchange) matches StepModel::Read { exchange: next, size } ==> {
            &&& 1 <= size <= HOST_READ_BYTES
            &&& exchange.raw.len() + size <= wire_bytes(exchange.max)
            &&& next == exchange
        },
{
    response::lemma_next_read_is_positive(exchange.raw, exchange.max, exchange.signed);
}

/// However a response comes in, its object is returned: what has come
/// of it asks for more until it is complete, and when it is complete the object
/// is the outcome.
pub proof fn law_objects_are_returned(raw: Seq<u8>, max: int, signed: bool, k: int)
    requires
        response::object_of(raw, max, signed) is Ok,
        0 <= k < raw.len() < wire_bytes(max),
        raw.len() <= usize::MAX,
    ensures
        decision(ExchangeModel { raw: bytes::before(raw, k), max, signed }) is Read,
        decision(ExchangeModel { raw, max, signed }) == (StepModel::Done {
            result: Ok::<Seq<u8>, ErrorModel>(response::object_of(raw, max, signed)->Ok_0),
        }),
{
    response::law_truncated_responses_are_refused(raw, max, signed, k);
    response::law_accepted_responses_are_complete(raw, max, signed);
}

/// A response that is cut short is never returned as an object.
pub proof fn law_truncated_objects_are_not_returned(raw: Seq<u8>, max: int, signed: bool, k: int)
    requires
        response::object_of(raw, max, signed) is Ok,
        0 <= k < raw.len() <= usize::MAX,
    ensures
        reaction(
            ExchangeModel { raw: bytes::before(raw, k), max, signed },
            Seq::empty(),
        ) matches StepModel::Done { result } && result is Err,
{
    response::law_truncated_responses_are_refused(raw, max, signed, k);
}

/// Nothing of a network failure's details reaches the caller: failures of the
/// same kind are reported alike.
pub proof fn law_network_details_are_hidden(a: String, b: String)
    ensures
        net_failure(net::Error::Denied(a)) == net_failure(net::Error::Denied(b)),
        net_failure(net::Error::Limit(a)) == net_failure(net::Error::Limit(b)),
        net_failure(net::Error::Unavailable(a)) == net_failure(net::Error::Unavailable(b)),
        net_failure(net::Error::Timeout(a)) == net_failure(net::Error::Timeout(b)),
        net_failure(net::Error::Tls(a)) == net_failure(net::Error::Tls(b)),
        net_failure(net::Error::Io(a)) == net_failure(net::Error::Io(b)),
{
}

/// Exactly these names are signing grants: a lower-case letter, and at most
/// sixty-three lower-case letters, digits, underscores and hyphens behind it.
pub proof fn law_signing_grants_are_names(grant: Seq<u8>)
    ensures
        is_signing_grant(grant) <==> {
            &&& 1 <= grant.len() <= 64
            &&& 0x61 <= grant[0] <= 0x7a
            &&& forall|i: int|
                0 <= i < grant.len() ==> (0x61 <= #[trigger] grant[i] <= 0x7a || 0x30 <= grant[i]
                    <= 0x39 || grant[i] == 0x5f || grant[i] == 0x2d)
        },
{
    if is_signing_grant(grant) {
        assert forall|i: int| 0 <= i < grant.len() implies (0x61 <= #[trigger] grant[i] <= 0x7a
            || 0x30 <= grant[i] <= 0x39 || grant[i] == 0x5f || grant[i] == 0x2d) by {
            assert(is_grant_byte(grant[i]));
        }
    }
}

/// A host is asked to sign under every grant for every object whose key it
/// signs for. It is asked for the object's URI and no query, with no header of
/// its own, and may return 65536 bytes more than the object may have.
pub proof fn law_hosts_are_asked_for_the_object(
    grant: Seq<u8>,
    bucket: Seq<u8>,
    key: Seq<u8>,
    max: int,
    request: sigv4::RequestModel,
)
    requires
        0 <= max,
    ensures
        signed_request(grant, bucket, key, max) == Ok::<sigv4::RequestModel, ErrorModel>(request)
            <==> {
            &&& is_signing_grant(grant)
            &&& uri::signed_get_uri(bucket, key, max) is Ok
            &&& request.signing_grant == grant
            &&& request.method == sigv4::Method::Get
            &&& request.canonical_uri == uri::signed_get_uri(bucket, key, max)->Ok_0
            &&& request.canonical_query.len() == 0
            &&& request.headers.len() == 0
            &&& request.max_response_bytes as int == max + 65536
        },
{
    uri::law_signed_uris_are_narrower(bucket, key, max);
    uri::law_every_object_has_a_uri(bucket, key, max);
    if request.canonical_query.len() == 0 {
        assert(request.canonical_query =~= Seq::<u8>::empty());
    }
    if request.headers.len() == 0 {
        assert(request.headers =~= Seq::<(String, String)>::empty());
    }
}

/// Every authentication takes its own route: an anonymous request goes to its
/// endpoint without a query, a presigned one to its endpoint with its query and
/// its authority, and under a grant nothing is sent but what the host signs.
pub proof fn law_routes_follow_the_authentication(options: ObjectOptions, route: RouteModel)
    ensures
        route_of(options) == Ok::<RouteModel, ErrorModel>(route) <==> {
            let get = seq![0x47u8, 0x45u8, 0x54u8];
            let bucket = encode_utf8(options.bucket@);
            let key = encode_utf8(options.key@);
            let max = options.max_bytes as int;
            match options.auth {
                Auth::Anonymous(auth) => {
                    &&& route matches RouteModel::Raw { endpoint, request }
                    &&& endpoint == encode_utf8(auth.endpoint@)
                    &&& request::object_request(
                        get,
                        endpoint,
                        bucket,
                        key,
                        None,
                        None,
                        Some(max),
                    ) == Ok::<Seq<u8>, HttpError>(request)
                },
                Auth::Presigned(auth) => {
                    &&& route matches RouteModel::Raw { endpoint, request }
                    &&& endpoint == encode_utf8(auth.endpoint@)
                    &&& request::object_request(
                        get,
                        endpoint,
                        bucket,
                        key,
                        Some(encode_utf8(auth.query@)),
                        Some(encode_utf8(auth.authority@)),
                        Some(max),
                    ) == Ok::<Seq<u8>, HttpError>(request)
                },
                Auth::Sigv4(grant) => {
                    &&& route matches RouteModel::Signed { request }
                    &&& signed_request(encode_utf8(grant@), bucket, key, max) == Ok::<
                        sigv4::RequestModel,
                        ErrorModel,
                    >(request)
                },
            }
        },
{
    reveal_strlit("GET");
    is_ascii_chars_encode_utf8("GET"@);
    assert("GET".spec_bytes() =~= seq![0x47u8, 0x45u8, 0x54u8]);
}

/// No exchange goes on once 65536 bytes more have come than the object may have,
/// and a chunk that goes beyond is not looked at.
pub proof fn law_the_wire_is_bounded(exchange: ExchangeModel, chunk: Seq<u8>)
    requires
        0 <= exchange.max,
    ensures
        exchange.raw.len() >= exchange.max + 65536 ==> {
            &&& decision(exchange) matches StepModel::Done { result: Err(error) }
            &&& error.class == ErrorClass::Limit && error.status is None
        },
        chunk.len() > 0 && exchange.raw.len() + chunk.len() >= exchange.max + 65536 ==> {
            &&& reaction(exchange, chunk) matches StepModel::Done { result: Err(error) }
            &&& error.class == ErrorClass::Limit && error.status is None
        },
        decision(exchange) matches StepModel::Read { exchange: _, size } ==> size <= 1_048_576
            && exchange.raw.len() + size <= exchange.max + 65536,
{
}

/// A read is for what is useful, for what the wire leaves, or for 1048576 bytes,
/// whichever is least.
pub proof fn law_reads_take_what_is_useful(exchange: ExchangeModel, useful: int)
    requires
        exchange.raw.len() < exchange.max + 65536,
        response::next_read(exchange.raw, exchange.max, exchange.signed) == Ok::<
            Option<int>,
            HttpError,
        >(Some(useful)),
    ensures
        ({
            let left = exchange.max + 65536 - exchange.raw.len();
            &&& decision(exchange) matches StepModel::Read { exchange: next, size }
            &&& next == exchange
            &&& size <= useful && size <= left && size <= 1_048_576
            &&& size == useful || size == left || size == 1_048_576
        }),
{
}

/// However an object comes in, in whatever chunks, it is returned: each chunk but
/// the last asks for more, and the last one gives the object.
pub proof fn law_objects_arrive_in_any_pieces(
    raw: Seq<u8>,
    max: int,
    signed: bool,
    k: int,
    j: int,
)
    requires
        response::object_of(raw, max, signed) is Ok,
        0 <= k < j <= raw.len() < max + 65536,
        raw.len() <= usize::MAX,
    ensures
        reaction(
            ExchangeModel { raw: bytes::before(raw, k), max, signed },
            raw.subrange(k, j),
        ) matches StepModel::Read { exchange, size: _ } ==> exchange == (ExchangeModel {
            raw: bytes::before(raw, j),
            max,
            signed,
        }),
        j < raw.len() ==> reaction(
            ExchangeModel { raw: bytes::before(raw, k), max, signed },
            raw.subrange(k, j),
        ) is Read,
        j == raw.len() ==> reaction(
            ExchangeModel { raw: bytes::before(raw, k), max, signed },
            raw.subrange(k, j),
        ) == (StepModel::Done {
            result: Ok::<Seq<u8>, ErrorModel>(response::object_of(raw, max, signed)->Ok_0),
        }),
{
    assert(bytes::before(raw, k) + raw.subrange(k, j) =~= bytes::before(raw, j));
    law_objects_are_returned(raw, max, signed, k);
    if j < raw.len() {
        law_objects_are_returned(raw, max, signed, j);
    } else {
        assert(bytes::before(raw, j) =~= raw);
    }
}

/// However the refusal of a signed request comes in, in whatever chunks, it is
/// read to its end, and where it says that the time of the signature was
/// refused, so does the error that a caller sees.
pub proof fn law_refused_signing_times_are_reported(
    sent: answer::Answer,
    status: u16,
    chunks: Seq<chunked::Chunk>,
    last: Seq<u8>,
    document: response::ErrorDocument,
    max: int,
    k: int,
    j: int,
)
    requires
        answer::is_answer(sent, status),
        400 <= status <= 499,
        answer::is_readable(sent.lines),
        answer::is_plain(sent.lines),
        response::is_error_document(document),
        0 <= max <= usize::MAX,
        answer::sent(sent).len() <= usize::MAX,
        0 <= k < j <= answer::sent(sent).len() < max + 65536,
        ({
            let payload = encode_utf8(response::written_error(document));
            &&& payload.len() <= 32768
            &&& if answer::values(sent.lines, "transfer-encoding".spec_bytes()).len() == 1 {
                answer::sends_in_chunks(sent, chunks, last) && chunked::payload(chunks) == payload
            } else {
                sent.body == payload && answer::sends_with_length(sent)
            }
        }),
    ensures
        ({
            let raw = answer::sent(sent);
            let step = reaction(
                ExchangeModel { raw: bytes::before(raw, k), max, signed: true },
                raw.subrange(k, j),
            );
            if j < raw.len() {
                step is Read
            } else {
                &&& step matches StepModel::Done { result: Err(error) }
                &&& error.status == Some(status)
                &&& error.class == ErrorClass::ClockSkew <==> document.code
                    == "RequestTimeTooSkewed"@ || document.code == "RequestExpired"@
            }
        }),
{
    let raw = answer::sent(sent);
    assert(bytes::before(raw, k) + raw.subrange(k, j) =~= bytes::before(raw, j));
    answer::law_responses_are_read_to_their_end(sent, status, chunks, last, max, true, j);
    answer::law_refused_signing_times_are_told(sent, status, chunks, last, document, max);
    if j == raw.len() {
        assert(bytes::before(raw, j) =~= raw);
    }
}

/// Every kind of error is reported under the class of its name, with its status
/// and its message.
pub proof fn law_errors_keep_their_names(error: HttpError)
    ensures
        reported(error).status == error.status,
        reported(error).message == error.message@,
        reported(error).class == ErrorClass::InvalidRequest <==> error.kind
            == HttpErrorKind::InvalidRequest,
        reported(error).class == ErrorClass::Protocol <==> error.kind == HttpErrorKind::Protocol,
        reported(error).class == ErrorClass::Denied <==> error.kind == HttpErrorKind::Denied,
        reported(error).class == ErrorClass::NotFound <==> error.kind == HttpErrorKind::NotFound,
        reported(error).class == ErrorClass::Server <==> error.kind == HttpErrorKind::Server,
        reported(error).class == ErrorClass::ClockSkew <==> error.kind == HttpErrorKind::ClockSkew,
        reported(error).class == ErrorClass::Limit <==> error.kind == HttpErrorKind::Limit,
        reported(error).class == ErrorClass::Unsupported <==> error.kind
            == HttpErrorKind::Unsupported,
        reported(error).class != ErrorClass::Transport,
{
}

/// What a signer or a network denies, refuses for its size or finds at fault in a
/// request is reported as such, and every other failure of theirs as one of the
/// transport, without a status.
pub proof fn law_failures_of_hosts_are_transport_failures(signer: sigv4::Error, network: net::Error)
    ensures
        sigv4_error_class(signer) == ErrorClass::Denied <==> signer is Denied,
        sigv4_error_class(signer) == ErrorClass::InvalidRequest <==> signer is InvalidRequest,
        sigv4_error_class(signer) == ErrorClass::Limit <==> signer is Limit,
        !(signer is Denied || signer is InvalidRequest || signer is Limit) ==> sigv4_error_class(
            signer,
        ) == ErrorClass::Transport,
        net_failure(network).class == ErrorClass::Denied <==> network is Denied,
        net_failure(network).class == ErrorClass::Limit <==> network is Limit,
        !(network is Denied || network is Limit) ==> net_failure(network).class
            == ErrorClass::Transport,
        net_failure(network).status is None,
{
}

} // verus!
