//! The steps in which an object is read.

use sigil_s3::client::{
    client_error, object_limit, plan_get_object, valid_signing_grant, wire_limit, AnonymousAuth,
    Auth, Error, ErrorClass, Exchange, ObjectOptions, PresignedAuth, Route, Step, HOST_READ_BYTES,
    MAX_WIRE_OVERHEAD_BYTES,
};
use sigil_s3::error::{HttpError, HttpErrorKind};

fn failure(class: ErrorClass, status: Option<u16>, message: &str) -> Error {
    Error { class, status, message: message.to_owned() }
}

/// Reads `raw` in pieces of at most `piece` bytes, and then its end.
fn run(raw: &[u8], max_bytes: usize, signed: bool, piece: usize) -> Result<Vec<u8>, Error> {
    let mut step = Exchange::new(max_bytes, signed).expect("exchange").next_step();
    let mut sent = 0;
    loop {
        match step {
            Step::Done { result } => return result,
            Step::Read { exchange, size } => {
                assert!(1 <= size && size <= HOST_READ_BYTES);
                assert!(sent + size as usize <= max_bytes + MAX_WIRE_OVERHEAD_BYTES);
                let count = piece.min(size as usize).min(raw.len() - sent);
                step = exchange.receive(&raw[sent..sent + count]);
                sent += count;
            }
        }
    }
}

fn options(auth: Auth) -> ObjectOptions {
    ObjectOptions {
        bucket: "results".to_owned(),
        key: "run/output.parquet".to_owned(),
        auth,
        max_bytes: 4,
    }
}

#[test]
fn objects_are_returned_however_they_come_in() {
    let fixed = b"HTTP/1.1 200 OK\r\nContent-Length: 4\r\n\r\n\0\xffAB";
    let chunked = b"HTTP/1.1 200 OK\r\nTransfer-Encoding: chunked\r\n\r\n2\r\n\0\xff\r\n2\r\nAB\r\n0\r\n\r\n";
    for raw in [fixed.as_slice(), chunked.as_slice()] {
        for signed in [false, true] {
            for piece in 1..=raw.len() {
                assert_eq!(run(raw, 4, signed, piece), Ok(b"\0\xffAB".to_vec()));
            }
            for cut in 0..raw.len() {
                assert!(run(&raw[..cut], 4, signed, 7).is_err());
            }
        }
    }
}

#[test]
fn the_wire_limit_stops_a_response() {
    let mut raw = b"HTTP/1.1 200 OK\r\n\r\n".to_vec();
    raw.extend_from_slice(&[b'x'; 5]);
    assert_eq!(
        run(&raw, 4, false, 100),
        Err(failure(ErrorClass::Limit, None, "S3 object exceeds the requested byte limit"))
    );
    let wire = failure(ErrorClass::Limit, None, "S3 response exceeds the wire byte limit");
    let exchange = Exchange::new(4, false).expect("exchange");
    match exchange.receive(&vec![b'x'; 4 + MAX_WIRE_OVERHEAD_BYTES]) {
        Step::Done { result } => assert_eq!(result, Err(wire.clone())),
        Step::Read { .. } => panic!("nothing is left to read"),
    }
    let exchange = Exchange::new(4, false).expect("exchange");
    match exchange.receive(&vec![b'x'; 5 + MAX_WIRE_OVERHEAD_BYTES]) {
        Step::Done { result } => assert_eq!(result, Err(wire)),
        Step::Read { .. } => panic!("too much was read"),
    }
}

#[test]
fn large_objects_are_read_in_bounded_steps() {
    let size = 3 * 1024 * 1024;
    let mut raw = format!("HTTP/1.1 200 OK\r\nContent-Length: {size}\r\n\r\n").into_bytes();
    raw.resize(raw.len() + size, b'z');
    assert_eq!(run(&raw, size, false, usize::MAX), Ok(vec![b'z'; size]));
}

#[test]
fn failures_are_reported_with_their_status() {
    let raw = b"HTTP/1.1 403 Forbidden\r\nContent-Length: 42\r\n\r\n<Error><Code>RequestExpired</Code></Error>";
    assert_eq!(
        run(raw, 4, true, 9),
        Err(failure(ErrorClass::ClockSkew, Some(403), "S3 rejected the request signing time"))
    );
    assert_eq!(
        run(raw, 4, false, 9),
        Err(failure(ErrorClass::Denied, Some(403), "S3 request was denied"))
    );
    for (kind, class) in [
        (HttpErrorKind::InvalidRequest, ErrorClass::InvalidRequest),
        (HttpErrorKind::Protocol, ErrorClass::Protocol),
        (HttpErrorKind::Denied, ErrorClass::Denied),
        (HttpErrorKind::NotFound, ErrorClass::NotFound),
        (HttpErrorKind::Server, ErrorClass::Server),
        (HttpErrorKind::ClockSkew, ErrorClass::ClockSkew),
        (HttpErrorKind::Limit, ErrorClass::Limit),
        (HttpErrorKind::Unsupported, ErrorClass::Unsupported),
    ] {
        let error = HttpError { kind, status: Some(599), message: "why" };
        assert_eq!(client_error(&error), failure(class, Some(599), "why"));
    }
}

#[test]
fn plans_follow_the_authentication() {
    let anonymous = options(Auth::Anonymous(AnonymousAuth { endpoint: "store".to_owned() }));
    let (route, _exchange) = plan_get_object(&anonymous).ok().expect("anonymous plan");
    match route {
        Route::Raw { endpoint, request } => {
            assert_eq!(endpoint, "store");
            assert_eq!(
                request,
                b"GET /results/run/output.parquet HTTP/1.1\r\nHost: store\r\nAccept-Encoding: identity\r\nConnection: close\r\n\r\n"
            );
        }
        Route::Signed { .. } => panic!("anonymous requests are not signed"),
    }
    let presigned = options(Auth::Presigned(PresignedAuth {
        endpoint: "store".to_owned(),
        query: "X-Amz-Signature=abc".to_owned(),
        authority: "127.0.0.1:9000".to_owned(),
    }));
    let (route, _exchange) = plan_get_object(&presigned).ok().expect("presigned plan");
    match route {
        Route::Raw { endpoint, request } => {
            assert_eq!(endpoint, "store");
            let text = String::from_utf8(request).expect("ASCII");
            assert!(text.starts_with("GET /results/run/output.parquet?X-Amz-Signature=abc HTTP/1.1\r\nHost: 127.0.0.1:9000\r\n"));
        }
        Route::Signed { .. } => panic!("presigned requests are not signed again"),
    }
    let (route, _exchange) =
        plan_get_object(&options(Auth::Sigv4("object-store".to_owned()))).ok().expect("signed plan");
    match route {
        Route::Signed { request } => {
            assert_eq!(request.signing_grant, "object-store");
            assert_eq!(request.canonical_uri, "/results/run/output.parquet");
            assert_eq!(request.max_response_bytes, 4 + 65_536);
        }
        Route::Raw { .. } => panic!("signed requests are not raw"),
    }
    assert_eq!(
        plan_get_object(&options(Auth::Sigv4("Object".to_owned()))).err(),
        Some(failure(ErrorClass::InvalidRequest, None, "invalid SigV4 signing grant"))
    );
    let mut nothing = anonymous;
    nothing.max_bytes = 0;
    assert_eq!(
        plan_get_object(&nothing).err(),
        Some(failure(
            ErrorClass::Limit,
            None,
            "requested object byte limit is outside the supported range"
        ))
    );
}

#[test]
fn limits_and_grants_are_bounded() {
    assert_eq!(object_limit(7), Ok(7));
    assert_eq!(wire_limit(1), Ok(65_537));
    assert_eq!(
        wire_limit(usize::MAX),
        Err(failure(ErrorClass::Limit, None, "S3 response byte limit overflowed"))
    );
    assert!(Exchange::new(usize::MAX, true).is_err());
    assert!(valid_signing_grant("a") && valid_signing_grant("a0_-"));
    assert!(valid_signing_grant(&"a".repeat(64)) && !valid_signing_grant(&"a".repeat(65)));
    assert!(!valid_signing_grant("0a") && !valid_signing_grant("-a") && !valid_signing_grant("é"));
}
