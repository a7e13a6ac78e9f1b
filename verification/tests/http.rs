//! Requests and responses.

use sigil_s3::error::HttpErrorKind;
use sigil_s3::header::MAX_HEADER_BYTES;
use sigil_s3::list::MAX_LIST_KEYS;
use sigil_s3::query::build_list_query;
use sigil_s3::request::{build_get_request, build_head_request, build_list_request};
use sigil_s3::response::{
    decode_head_response, decode_response, decode_signed_response, next_head_read_size,
    next_read_size, next_signed_read_size, ObjectMetadata, MAX_S3_ERROR_BODY_BYTES,
};
use sigil_s3::uri::{build_canonical_uri, build_sigv4_canonical_uri};


#[test]
fn request_is_path_style_binary_safe_and_injection_resistant() {
    let request = build_get_request(
        "minio",
        "results",
        "folder/a b/é.parquet",
        Some("X-Amz-Algorithm=AWS4-HMAC-SHA256&X-Amz-Signature=abc%2Fdef"),
        Some("127.0.0.1:9000"),
        1024,
    )
    .expect("valid request");
    let request = String::from_utf8(request).expect("ASCII request");
    assert!(request.starts_with("GET /results/folder/a%20b/%C3%A9.parquet?X-Amz-Algorithm="));
    assert!(request.contains("X-Amz-Signature=abc%2Fdef HTTP/1.1\r\n"));
    assert!(request.contains("\r\nHost: 127.0.0.1:9000\r\n"));
    assert!(build_get_request("minio", "results.test", "key", None, None, 1).is_ok());
    assert!(build_get_request("bad\r\nname", "results", "key", None, None, 1).is_err());
    assert!(build_get_request("minio", "results", "key", Some("x=1\r\ny=2"), None, 1).is_err());
}

#[test]
fn head_request_preserves_auth_authority_and_has_no_body() {
    let request = build_head_request(
        "operator-route",
        "results",
        "exports/capi.parquet",
        Some("X-Amz-Credential=key%2Fscope&X-Amz-Signature=abc"),
        Some("127.0.0.1:9000"),
    )
    .expect("valid presigned HEAD request");
    let request = String::from_utf8(request).expect("ASCII request");
    assert_eq!(
        request,
        "HEAD /results/exports/capi.parquet?X-Amz-Credential=key%2Fscope&X-Amz-Signature=abc HTTP/1.1\r\nHost: 127.0.0.1:9000\r\nAccept-Encoding: identity\r\nConnection: close\r\n\r\n"
    );
    assert!(!request.contains("Host: operator-route"));
    assert!(!request.contains("GET "));
}

#[test]
fn list_query_is_canonical_bounded_and_caller_driven() {
    assert_eq!(
        build_list_query("exports/space %/é+", 17, None).expect("first page"),
        "list-type=2&max-keys=17&prefix=exports%2Fspace%20%25%2F%C3%A9%2B"
    );
    assert_eq!(
        build_list_query("exports/", 17, Some("opaque/next+2")).expect("later page"),
        "continuation-token=opaque%2Fnext%2B2&list-type=2&max-keys=17&prefix=exports%2F"
    );
    for (prefix, max_keys, token) in [
        ("", 1, None),
        ("exports/", 0, None),
        ("exports/", MAX_LIST_KEYS + 1, None),
        ("exports/", 1, Some("")),
    ] {
        assert!(build_list_query(prefix, max_keys, token).is_err());
    }
}

#[test]
fn deterministic_list_query_corpus_is_ascii_and_canonical() {
    for byte in 0_u8..=127 {
        let character = char::from(byte);
        let prefix = format!("exports/{character}suffix");
        let token = format!("opaque{character}token");
        let query = build_list_query(&prefix, 1000, Some(&token)).expect("bounded query");
        assert!(query.is_ascii());
        assert!(!query.contains(' '));
        for (index, encoded) in query.bytes().enumerate() {
            if encoded == b'%' {
                let escape = query
                    .as_bytes()
                    .get(index + 1..index + 3)
                    .expect("complete percent escape");
                assert!(escape.iter().all(u8::is_ascii_hexdigit));
                assert!(!escape.iter().any(u8::is_ascii_lowercase));
            }
        }
    }
}

#[test]
fn raw_and_presigned_list_requests_bind_the_exact_options() {
    let anonymous = build_list_request(
        "object-store",
        "results",
        "exports/",
        2,
        Some("next/+"),
        None,
        None,
    )
    .expect("anonymous list");
    assert_eq!(
        String::from_utf8(anonymous).expect("ASCII"),
        "GET /results/?continuation-token=next%2F%2B&list-type=2&max-keys=2&prefix=exports%2F HTTP/1.1\r\nHost: object-store\r\nAccept-Encoding: identity\r\nConnection: close\r\n\r\n"
    );

    let presigned_query = "X-Amz-Algorithm=AWS4-HMAC-SHA256&X-Amz-Signature=abc%2Fdef&list-type=2&max-keys=2&prefix=exports%2F";
    let presigned = build_list_request(
        "operator-route",
        "results",
        "exports/",
        2,
        None,
        Some(presigned_query),
        Some("127.0.0.1:9000"),
    )
    .expect("presigned list");
    let presigned = String::from_utf8(presigned).expect("ASCII");
    assert!(presigned.starts_with(&format!("GET /results/?{presigned_query} HTTP/1.1\r\n")));
    assert!(presigned.contains("\r\nHost: 127.0.0.1:9000\r\n"));

    for mismatch in [
        "X-Amz-Signature=x&list-type=1&max-keys=2&prefix=exports%2F",
        "X-Amz-Signature=x&list-type=2&max-keys=3&prefix=exports%2F",
        "X-Amz-Signature=x&list-type=2&max-keys=2&prefix=other%2F",
        "X-Amz-Signature=x&list-type=2&list-type=2&max-keys=2&prefix=exports%2F",
        "X-Amz-Signature=x&list-type=2&max-keys=2&prefix=exports%2F&continuation-token=unexpected",
    ] {
        assert!(
            build_list_request(
                "operator-route",
                "results",
                "exports/",
                2,
                None,
                Some(mismatch),
                Some("127.0.0.1:9000")
            )
            .is_err(),
            "accepted mismatch: {mismatch}"
        );
    }
}

#[test]
fn presigned_authority_is_bounded_and_cannot_select_the_socket_route() {
    for authority in [
        "minio.example:9000",
        "127.0.0.1:9000",
        "[2001:db8::1]:9000",
        "localhost",
    ] {
        let request = build_get_request(
            "operator-route",
            "results",
            "key",
            Some("X-Amz-Signature=abc"),
            Some(authority),
            1,
        )
        .expect("valid authority");
        let request = String::from_utf8(request).expect("ASCII request");
        assert!(request.contains(&format!("\r\nHost: {authority}\r\n")));
        assert!(!request.contains("Host: operator-route\r\n"));
    }

    for authority in [
        "",
        "example.com:0",
        "example.com:+80",
        "example.com:-1",
        "example.com:65536",
        "user@example.com",
        "example.com/path",
        "example.com\r\nX-Injected: yes",
        "2001:db8::1",
        "[not-ipv6]:9000",
    ] {
        assert!(
            build_get_request(
                "operator-route",
                "results",
                "key",
                Some("X-Amz-Signature=abc"),
                Some(authority),
                1,
            )
            .is_err(),
            "authority {authority:?} must be rejected"
        );
    }
    assert!(
        build_get_request(
            "operator-route",
            "results",
            "key",
            None,
            Some("example.com"),
            1,
        )
        .is_err(),
        "an authority without a presigned query has no defined meaning"
    );
}

#[test]
fn fixed_and_chunked_binary_bodies_decode_exactly() {
    let fixed = b"HTTP/1.1 200 OK\r\nContent-Length: 4\r\n\r\n\0\xffAB".to_vec();
    assert_eq!(decode_response(&fixed, 4).expect("fixed body"), b"\0\xffAB");

    let chunked = b"HTTP/1.1 200 OK\r\nTransfer-Encoding: chunked\r\n\r\n2\r\n\0\xff\r\n2\r\nAB\r\n0\r\n\r\n".to_vec();
    assert_eq!(
        decode_response(&chunked, 4).expect("chunked body"),
        b"\0\xffAB"
    );
}

#[test]
fn head_metadata_is_optional_exact_and_unnormalized() {
    let full = b"HTTP/1.1 200 OK\r\nContent-Length: 18446744073709551615\r\nETag:\t\"abc-2\" \r\nLast-Modified: Sun, 30 Aug 2026 23:59:01 GMT\r\nContent-Encoding: gzip\r\n\r\n";
    assert_eq!(
        decode_head_response(full).expect("complete metadata"),
        ObjectMetadata {
            content_length: Some(u64::MAX),
            etag: Some("\"abc-2\"".to_owned()),
            last_modified: Some("Sun, 30 Aug 2026 23:59:01 GMT".to_owned()),
        }
    );

    let absent = b"HTTP/1.1 200 OK\r\nDate: Sun, 30 Aug 2026 23:59:01 GMT\r\n\r\n";
    assert_eq!(
        decode_head_response(absent).expect("missing metadata remains explicit"),
        ObjectMetadata {
            content_length: None,
            etag: None,
            last_modified: None,
        }
    );

    let zero = b"HTTP/1.1 200 OK\r\nContent-Length: 0\r\n\r\n";
    assert_eq!(
        decode_head_response(zero)
            .expect("present zero content length remains distinguishable")
            .content_length,
        Some(0)
    );

    let empty = b"HTTP/1.1 200 OK\r\nETag:\r\nLast-Modified:\r\n\r\n";
    assert_eq!(
        decode_head_response(empty).expect("present empty values remain present"),
        ObjectMetadata {
            content_length: None,
            etag: Some(String::new()),
            last_modified: Some(String::new()),
        }
    );
}

#[test]
fn head_rejects_ambiguous_metadata_framing_and_body_bytes() {
    for raw in [
        b"HTTP/1.1 200 OK\r\nContent-Length: 1\r\nContent-Length: 1\r\n\r\n".as_slice(),
        b"HTTP/1.1 200 OK\r\nContent-Length: 1\r\nContent-Length: 2\r\n\r\n".as_slice(),
        b"HTTP/1.1 200 OK\r\nETag: one\r\nETag: two\r\n\r\n".as_slice(),
        b"HTTP/1.1 200 OK\r\nLast-Modified: one\r\nLast-Modified: two\r\n\r\n".as_slice(),
        b"HTTP/1.1 200 OK\r\nContent-Length: 1\r\nTransfer-Encoding: chunked\r\n\r\n"
            .as_slice(),
        b"HTTP/1.1 200 OK\r\nTransfer-Encoding: chunked\r\n\r\n".as_slice(),
        b"HTTP/1.1 200 OK\r\nTransfer-Encoding: identity\r\n\r\n".as_slice(),
        b"HTTP/1.1 200 OK\r\nContent-Length: 1\r\n\r\nX".as_slice(),
        b"HTTP/1.1 200 OK\r\nContent-Length: 18446744073709551616\r\n\r\n".as_slice(),
        b"HTTP/1.1 200 OK\r\nETag: \xff\r\n\r\n".as_slice(),
        b"HTTP/1.1 200 OK\r\nETag: one\r\n two\r\n\r\n".as_slice(),
        b"HTTP/1.1 200 OK\r\nETag: one\x01two\r\n\r\n".as_slice(),
        b"HTTP/1.1 200 OK\r\nBad Name: value\r\n\r\n".as_slice(),
    ] {
        assert!(
            decode_head_response(raw).is_err(),
            "hostile HEAD response must fail: {raw:?}"
        );
    }
}

#[test]
fn head_statuses_are_typed_without_metadata_or_payload_fallback() {
    for (status, kind) in [
        (100, HttpErrorKind::Protocol),
        (204, HttpErrorKind::Protocol),
        (301, HttpErrorKind::Unsupported),
        (401, HttpErrorKind::Denied),
        (403, HttpErrorKind::Denied),
        (404, HttpErrorKind::NotFound),
        (500, HttpErrorKind::Server),
        (599, HttpErrorKind::Server),
    ] {
        let raw = format!(
            "HTTP/1.1 {status} Status\r\nContent-Length: 7\r\nETag: do-not-return\r\n\r\n"
        );
        let error = decode_head_response(raw.as_bytes()).expect_err("status must fail");
        assert_eq!(error.kind, kind);
        assert_eq!(error.status, Some(status));
        assert!(!error.message.contains("do-not-return"));
    }

    let with_error_body = b"HTTP/1.1 403 Forbidden\r\nContent-Length: 6\r\n\r\nsecret";
    let error = decode_head_response(with_error_body)
        .expect_err("HEAD must not consume or expose an upstream body");
    assert_eq!(error.kind, HttpErrorKind::Protocol);
    assert!(!error.message.contains("secret"));
}

#[test]
fn head_reads_only_a_bounded_complete_header() {
    assert_eq!(
        next_head_read_size(b"").expect("empty response"),
        Some(MAX_HEADER_BYTES)
    );
    let partial = b"HTTP/1.1 200 OK\r\nContent-Length: 7\r\n";
    assert_eq!(
        next_head_read_size(partial).expect("partial header"),
        Some(MAX_HEADER_BYTES - partial.len())
    );
    let complete = b"HTTP/1.1 200 OK\r\nContent-Length: 7\r\n\r\n";
    assert_eq!(
        next_head_read_size(complete).expect("complete header"),
        None
    );
    let mut body = complete.to_vec();
    body.push(b'X');
    assert_eq!(
        next_head_read_size(&body)
            .expect_err("coalesced body byte must fail")
            .kind,
        HttpErrorKind::Protocol
    );

    let no_terminator = vec![b'A'; MAX_HEADER_BYTES];
    assert_eq!(
        next_head_read_size(&no_terminator)
            .expect_err("aggregate header limit must fail")
            .kind,
        HttpErrorKind::Limit
    );
    let oversized = format!(
        "HTTP/1.1 200 OK\r\nX-Fill: {}\r\n\r\n",
        "a".repeat(MAX_HEADER_BYTES)
    );
    assert_eq!(
        decode_head_response(oversized.as_bytes())
            .expect_err("terminated oversized header must fail")
            .kind,
        HttpErrorKind::Limit
    );

    let fixed_prefix = "HTTP/1.1 200 OK\r\nX-Fill: ";
    let fixed_suffix = "\r\n\r\n";
    let exact = format!(
        "{fixed_prefix}{}{fixed_suffix}",
        "a".repeat(MAX_HEADER_BYTES - fixed_prefix.len() - fixed_suffix.len())
    );
    assert_eq!(exact.len(), MAX_HEADER_BYTES);
    assert_eq!(
        next_head_read_size(exact.as_bytes()).expect("exact cap is accepted"),
        None
    );
    assert!(decode_head_response(exact.as_bytes()).is_ok());

    let over_by_one = format!(
        "{fixed_prefix}{}{fixed_suffix}",
        "a".repeat(MAX_HEADER_BYTES + 1 - fixed_prefix.len() - fixed_suffix.len())
    );
    assert_eq!(over_by_one.len(), MAX_HEADER_BYTES + 1);
    assert_eq!(
        next_head_read_size(over_by_one.as_bytes())
            .expect_err("cap plus one must fail")
            .kind,
        HttpErrorKind::Limit
    );
}

#[test]
fn limits_and_ambiguous_framing_fail_closed() {
    let oversized = b"HTTP/1.1 200 OK\r\nContent-Length: 4\r\n\r\nABCD".to_vec();
    assert_eq!(
        decode_response(&oversized, 3)
            .expect_err("must reject limit")
            .kind,
        HttpErrorKind::Limit
    );
    let declared_oversized = b"HTTP/1.1 200 OK\r\nContent-Length: 1000000\r\n\r\n".to_vec();
    assert_eq!(
        decode_response(&declared_oversized, 3)
            .expect_err("declared size must reject before body decoding")
            .kind,
        HttpErrorKind::Limit
    );
    let ambiguous =
        b"HTTP/1.1 200 OK\r\nContent-Length: 1\r\nTransfer-Encoding: chunked\r\n\r\n0\r\n\r\n"
            .to_vec();
    assert_eq!(
        decode_response(&ambiguous, 3)
            .expect_err("must reject ambiguous framing")
            .kind,
        HttpErrorKind::Protocol
    );
}

#[test]
fn statuses_are_typed_without_returning_server_payloads() {
    for (status, kind) in [
        (403, HttpErrorKind::Denied),
        (404, HttpErrorKind::NotFound),
        (503, HttpErrorKind::Server),
        (307, HttpErrorKind::Unsupported),
    ] {
        let raw =
            format!("HTTP/1.1 {status} Error\r\nContent-Length: 14\r\n\r\nsecret payload")
                .into_bytes();
        let error = decode_response(&raw, 100).expect_err("status must fail");
        assert_eq!(error.kind, kind);
        assert_eq!(error.status, Some(status));
        assert!(!error.message.contains("secret"));
    }
}

#[test]
fn signed_errors_classify_only_exact_structured_clock_skew_codes() {
    for code in ["RequestTimeTooSkewed", "RequestExpired"] {
        let body = format!(
            "<?xml version=\"1.0\" encoding=\"UTF-8\"?><Error><Code>{code}</Code><Message>do not return me</Message><RequestId>sensitive</RequestId></Error>"
        );
        let raw = format!(
            "HTTP/1.1 403 Forbidden\r\nContent-Length: {}\r\n\r\n{body}",
            body.len()
        );
        let error = decode_signed_response(raw.as_bytes(), 1)
            .expect_err("structured signing-time rejection must fail");
        assert_eq!(error.kind, HttpErrorKind::ClockSkew);
        assert_eq!(error.status, Some(403));
        assert!(!error.message.contains(code));
        assert!(!error.message.contains("sensitive"));
    }

    for body in [
        "<Error><Code>SignatureDoesNotMatch</Code><Message>RequestExpired</Message></Error>",
        "<Error><Message>RequestExpired</Message><Code>RequestExpired</Code></Error>",
        "free text RequestTimeTooSkewed",
    ] {
        let raw = format!(
            "HTTP/1.1 403 Forbidden\r\nContent-Length: {}\r\n\r\n{body}",
            body.len()
        );
        let error = decode_signed_response(raw.as_bytes(), 1)
            .expect_err("noncanonical error shape must fail");
        assert_eq!(error.kind, HttpErrorKind::Denied);
        assert_eq!(error.status, Some(403));
    }
}

#[test]
fn signed_error_body_reads_are_framed_and_bounded() {
    let body = "<Error><Code>RequestExpired</Code></Error>";
    let header = format!(
        "HTTP/1.1 400 Bad Request\r\nContent-Length: {}\r\n\r\n",
        body.len()
    );
    assert_eq!(
        next_read_size(header.as_bytes(), 1)
            .expect_err("legacy path preserves immediate status mapping")
            .kind,
        HttpErrorKind::Protocol
    );
    assert_eq!(
        next_signed_read_size(header.as_bytes(), 1).expect("signed error body is readable"),
        Some(body.len())
    );
    let complete = format!("{header}{body}");
    assert_eq!(
        next_signed_read_size(complete.as_bytes(), 1).expect("signed body is complete"),
        None
    );

    let oversized = format!(
        "HTTP/1.1 403 Forbidden\r\nContent-Length: {}\r\n\r\n",
        MAX_S3_ERROR_BODY_BYTES + 1
    );
    assert_eq!(
        next_signed_read_size(oversized.as_bytes(), 1)
            .expect_err("oversized error body must fail before reading")
            .kind,
        HttpErrorKind::Limit
    );
}

#[test]
fn signed_canonical_uri_matches_aws_encoding_rules_and_rejects_escapes() {
    assert_eq!(
        build_sigv4_canonical_uri("examplebucket", "photos/Jan/sample.jpg", 1)
            .expect("AWS object-key example"),
        "/examplebucket/photos/Jan/sample.jpg"
    );
    assert_eq!(
        build_sigv4_canonical_uri("examplebucket", "snow man/é+.txt", 1)
            .expect("UTF-8 and reserved bytes"),
        "/examplebucket/snow%20man/%C3%A9%2B.txt"
    );
    for key in [".", "..", "x/../y", r"x\y", "x%2Fy"] {
        assert!(
            build_sigv4_canonical_uri("examplebucket", key, 1).is_err(),
            "signed key {key:?} must be rejected"
        );
        assert!(
            build_canonical_uri("examplebucket", key, 1).is_ok(),
            "legacy raw key {key:?} must remain accepted"
        );
    }
}

#[test]
fn malformed_headers_chunks_and_lengths_fail_closed() {
    for raw in [
        b"HTTP/2 200 OK\r\nContent-Length: 0\r\n\r\n".as_slice(),
        b"HTTP/1.1 200 OK\r\nContent-Length: 1\r\n\r\n".as_slice(),
        b"HTTP/1.1 200 OK\r\nTransfer-Encoding: chunked\r\n\r\n1;x=1\r\nA\r\n0\r\n\r\n"
            .as_slice(),
        b"HTTP/1.1 200 OK\r\nTransfer-Encoding: chunked\r\n\r\n1\r\nA\n0\r\n\r\n".as_slice(),
    ] {
        assert!(decode_response(raw, 1024).is_err());
    }
}

#[test]
fn read_sizes_follow_framing_without_reserving_a_full_chunk_for_the_tail() {
    assert_eq!(
        next_read_size(b"", 4).expect("empty response"),
        Some(32_768)
    );

    let fixed_header = b"HTTP/1.1 200 OK\r\nContent-Length: 4\r\n\r\n";
    assert_eq!(
        next_read_size(fixed_header, 4).expect("fixed header"),
        Some(4)
    );
    let mut fixed_partial = fixed_header.to_vec();
    fixed_partial.extend_from_slice(b"ABC");
    assert_eq!(
        next_read_size(&fixed_partial, 4).expect("fixed tail"),
        Some(1)
    );
    fixed_partial.push(b'D');
    assert_eq!(
        next_read_size(&fixed_partial, 4).expect("fixed complete"),
        None
    );

    let chunked_header = b"HTTP/1.1 200 OK\r\nTransfer-Encoding: chunked\r\n\r\n";
    let mut chunked_partial = chunked_header.to_vec();
    chunked_partial.extend_from_slice(b"4\r\nABC");
    assert_eq!(
        next_read_size(&chunked_partial, 4).expect("chunked tail"),
        Some(3)
    );
    chunked_partial.extend_from_slice(b"D\r\n0\r\n\r\n");
    assert_eq!(
        next_read_size(&chunked_partial, 4).expect("chunked complete"),
        None
    );

    let eof_header = b"HTTP/1.1 200 OK\r\n\r\n";
    let mut eof_full = eof_header.to_vec();
    eof_full.extend_from_slice(b"ABCD");
    assert_eq!(next_read_size(&eof_full, 4).expect("EOF probe"), Some(1));
}
