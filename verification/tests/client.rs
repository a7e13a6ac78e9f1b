//! Errors and requests at the host's side.

use sigil_s3::client::{
    build_sigv4_request, net_error, sigv4_error, ErrorClass, MAX_WIRE_OVERHEAD_BYTES,
};
use sigil_s3::{net, sigv4};


#[test]
fn host_network_errors_are_typed_without_source_details() {
    for (source, expected) in [
        (
            net::Error::Denied("endpoint policy detail".to_owned()),
            ErrorClass::Denied,
        ),
        (
            net::Error::Limit("quota detail".to_owned()),
            ErrorClass::Limit,
        ),
        (
            net::Error::Unavailable("socket detail".to_owned()),
            ErrorClass::Transport,
        ),
        (
            net::Error::Timeout("deadline detail".to_owned()),
            ErrorClass::Transport,
        ),
        (
            net::Error::Tls("certificate detail".to_owned()),
            ErrorClass::Transport,
        ),
        (
            net::Error::Io("operating-system detail".to_owned()),
            ErrorClass::Transport,
        ),
    ] {
        let mapped = net_error(source);
        assert_eq!(mapped.class, expected);
        assert_eq!(mapped.status, None);
        assert!(!mapped.message.contains("detail"));
    }
}

#[test]
fn host_sigv4_errors_are_closed_and_sanitized() {
    for (source, expected, message) in [
        (sigv4::Error::Denied, ErrorClass::Denied, "denied"),
        (
            sigv4::Error::InvalidRequest,
            ErrorClass::InvalidRequest,
            "invalid",
        ),
        (sigv4::Error::Limit, ErrorClass::Limit, "limit"),
        (sigv4::Error::Unavailable, ErrorClass::Transport, "failed"),
        (sigv4::Error::Timeout, ErrorClass::Transport, "failed"),
        (sigv4::Error::Tls, ErrorClass::Transport, "failed"),
        (sigv4::Error::Io, ErrorClass::Transport, "failed"),
        (sigv4::Error::Expired, ErrorClass::Transport, "expired"),
        (sigv4::Error::Internal, ErrorClass::Transport, "failed"),
    ] {
        let mapped = sigv4_error(source);
        assert_eq!(mapped.class, expected);
        assert_eq!(mapped.status, None);
        assert!(mapped.message.contains(message));
        assert!(!mapped.message.contains("credential"));
        assert!(!mapped.message.contains("signature"));
    }
}

#[test]
fn sigv4_request_matches_the_aws_s3_path_style_canonical_shape() {
    let request = build_sigv4_request(
        "private-results",
        "examplebucket",
        "test.txt",
        4 * 1024 * 1024,
    )
    .expect("valid signed request");
    assert_eq!(request.signing_grant, "private-results");
    assert_eq!(request.method, sigv4::Method::Get);
    assert_eq!(request.canonical_uri, "/examplebucket/test.txt");
    assert!(request.canonical_query.is_empty());
    assert!(request.headers.is_empty());
    assert_eq!(
        request.max_response_bytes,
        4 * 1024 * 1024 + MAX_WIRE_OVERHEAD_BYTES as u64
    );
}

#[test]
fn signed_request_has_no_endpoint_or_credential_input() {
    let request = build_sigv4_request("object-store", "results", "folder/a b/é+.parquet", 1)
        .expect("valid signed request");
    assert_eq!(
        request.canonical_uri,
        "/results/folder/a%20b/%C3%A9%2B.parquet"
    );
    assert!(format!("{request:?}").contains("object-store"));
    for forbidden in ["endpoint", "access-key", "secret-key", "timestamp"] {
        assert!(!format!("{request:?}").contains(forbidden));
    }
    for invalid in ["", "ObjectStore", "object.store", "object/store"] {
        assert!(build_sigv4_request(invalid, "results", "key", 1).is_err());
    }
    for key in ["../secret", "folder/./key", r"folder\key", "literal%2Fkey"] {
        assert!(build_sigv4_request("object-store", "results", key, 1).is_err());
    }
}
