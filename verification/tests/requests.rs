//! What may be requested, and how it is written.

use sigil_s3::authority::{valid_endpoint, valid_port, valid_presigned_authority};
use sigil_s3::element::{MAX_CONTINUATION_TOKEN_BYTES, MAX_LIST_PREFIX_BYTES};
use sigil_s3::error::{HttpError, HttpErrorKind};
use sigil_s3::number::push_decimal;
use sigil_s3::query::{
    build_list_query, presigned_list_query_matches, valid_presigned_query, MAX_QUERY_BYTES,
};
use sigil_s3::request::{build_get_request, build_head_request, build_list_request};
use sigil_s3::uri::{
    build_canonical_uri, build_head_canonical_uri, build_list_canonical_uri,
    build_sigv4_canonical_uri, build_sigv4_head_canonical_uri, push_encoded_key,
    push_encoded_query_value, valid_bucket, MAX_OBJECT_BYTES,
};

fn invalid(message: &'static str) -> HttpError {
    HttpError { kind: HttpErrorKind::InvalidRequest, status: None, message }
}

fn limit(message: &'static str) -> HttpError {
    HttpError { kind: HttpErrorKind::Limit, status: None, message }
}

fn decoded(text: &[u8]) -> Vec<u8> {
    let mut output = Vec::new();
    let mut i = 0;
    while i < text.len() {
        if text[i] == b'%' {
            let digits = std::str::from_utf8(&text[i + 1..i + 3]).expect("digits");
            output.push(u8::from_str_radix(digits, 16).expect("hexadecimal"));
            i += 3;
        } else {
            output.push(text[i]);
            i += 1;
        }
    }
    output
}

#[test]
fn every_byte_is_encoded_canonically_and_reads_back() {
    for byte in 0..=255_u8 {
        let mut key = Vec::new();
        push_encoded_key(&mut key, &[byte]);
        let mut value = Vec::new();
        push_encoded_query_value(&mut value, &[byte]);
        let plain = byte.is_ascii_alphanumeric() || b"-_.~".contains(&byte);
        let escape = format!("%{byte:02X}").into_bytes();
        assert_eq!(value, if plain { vec![byte] } else { escape.clone() });
        assert_eq!(key, if plain || byte == b'/' { vec![byte] } else { escape });
        assert_eq!(decoded(&key), vec![byte]);
        assert_eq!(decoded(&value), vec![byte]);
    }
    let mut output = b"kept:".to_vec();
    push_encoded_key(&mut output, "a/b c/é%".as_bytes());
    assert_eq!(output, b"kept:a/b%20c/%C3%A9%25");
}

#[test]
fn numbers_are_written_in_decimal() {
    for (number, digits) in [(0, "0"), (9, "9"), (10, "10"), (1000, "1000"), (u32::MAX, "4294967295")] {
        let mut output = Vec::new();
        push_decimal(&mut output, number);
        assert_eq!(output, digits.as_bytes());
    }
}

#[test]
fn bucket_names_are_strict() {
    for bucket in ["abc", "a.b", "0-0", "results.test", &"a".repeat(63)] {
        assert!(valid_bucket(bucket.as_bytes()), "{bucket}");
    }
    for bucket in ["", "ab", "Abc", "a_b", "-ab", "ab-", ".ab", "ab.", "a..b", "a.-b", "a-.b", "a b", &"a".repeat(64)] {
        assert!(!valid_bucket(bucket.as_bytes()), "{bucket}");
        assert_eq!(build_head_canonical_uri(bucket, "k"), Err(invalid("invalid S3 bucket or key")));
        assert_eq!(
            build_list_canonical_uri(bucket),
            Err(invalid("invalid S3 bucket for object listing"))
        );
    }
    assert_eq!(build_list_canonical_uri("a.b"), Ok("/a.b/".to_owned()));
}

#[test]
fn keys_and_limits_are_bounded() {
    let longest = "k".repeat(1024);
    assert_eq!(build_canonical_uri("abc", &longest, 1), Ok(format!("/abc/{longest}")));
    for key in ["", &"k".repeat(1025), &"é".repeat(513)] {
        assert_eq!(build_canonical_uri("abc", key, 1), Err(invalid("invalid S3 bucket or key")));
    }
    assert!(build_canonical_uri("abc", "k", MAX_OBJECT_BYTES).is_ok());
    for max_bytes in [0, MAX_OBJECT_BYTES + 1] {
        assert_eq!(
            build_canonical_uri("abc", "k", max_bytes),
            Err(limit("requested object byte limit is outside the supported range"))
        );
    }
}

#[test]
fn signed_uris_are_narrower() {
    for key in ["%", "a\\b", ".", "..", "./a", "a/..", "a/./b"] {
        let refused = Err(invalid("object key is outside the supported SigV4 path shape"));
        assert_eq!(build_sigv4_canonical_uri("abc", key, 1), refused);
        assert_eq!(build_sigv4_head_canonical_uri("abc", key), refused);
        assert!(build_head_canonical_uri("abc", key).is_ok());
    }
    for key in ["a/b", "...", "a..b", "/", "a//b", ".a"] {
        assert_eq!(build_sigv4_canonical_uri("abc", key, 1), build_canonical_uri("abc", key, 1));
        assert_eq!(build_sigv4_head_canonical_uri("abc", key), build_head_canonical_uri("abc", key));
    }
}

#[test]
fn list_inputs_are_bounded() {
    assert_eq!(
        build_list_query(&"p".repeat(MAX_LIST_PREFIX_BYTES + 1), 1, None),
        Err(invalid("S3 list prefix is outside the supported range"))
    );
    assert_eq!(
        build_list_query("p", 0, None),
        Err(limit("S3 list max-keys is outside the supported range"))
    );
    assert_eq!(
        build_list_query("p", 1, Some(&"t".repeat(MAX_CONTINUATION_TOKEN_BYTES + 1))),
        Err(limit("S3 continuation token is outside the supported range"))
    );
    assert_eq!(
        build_list_query(
            &"/".repeat(MAX_LIST_PREFIX_BYTES),
            1,
            Some(&"/".repeat(MAX_CONTINUATION_TOKEN_BYTES))
        ),
        Err(limit("S3 list query exceeds the byte limit"))
    );
    assert!(build_list_query(&"/".repeat(MAX_LIST_PREFIX_BYTES), 1000, None).is_ok());
}

#[test]
fn own_queries_match_as_presigned_ones() {
    for (prefix, max_keys, token) in [
        ("exports/", 1, None),
        ("é &=#?", 1000, None),
        ("exports/", 17, Some("opaque/next+2")),
        ("a", 999, Some("&prefix=b")),
    ] {
        let query = build_list_query(prefix, max_keys, token).expect("query");
        assert!(presigned_list_query_matches(&query, prefix, max_keys, token));
        assert!(!presigned_list_query_matches(&query, prefix, max_keys + 1, token));
        assert!(!presigned_list_query_matches(&query, "other", max_keys, token));
        assert!(!presigned_list_query_matches(&query, prefix, max_keys, Some("other")));
        if token.is_some() {
            assert!(!presigned_list_query_matches(&query, prefix, max_keys, None));
        }
    }
}

#[test]
fn reordered_queries_match_their_own_listing_only() {
    let query = build_list_query("exports/", 17, Some("opaque/next+2")).expect("query");
    let fields: Vec<&str> = query.split('&').collect();
    for order in [[0, 1, 2, 3], [3, 2, 1, 0], [1, 3, 0, 2], [2, 0, 3, 1]] {
        let reordered: Vec<&str> = order.iter().map(|i| fields[*i]).collect();
        let reordered = reordered.join("&");
        let token = Some("opaque/next+2");
        assert!(presigned_list_query_matches(&reordered, "exports/", 17, token));
        assert!(!presigned_list_query_matches(&reordered, "exports", 17, token));
        assert!(!presigned_list_query_matches(&reordered, "exports/", 16, token));
        assert!(!presigned_list_query_matches(&reordered, "exports/", 17, Some("opaque")));
        assert!(!presigned_list_query_matches(&reordered, "exports/", 17, None));
    }
    assert!(presigned_list_query_matches("list-type=2&max-keys=1&prefix=a&?=x", "a", 1, None));
    assert!(!presigned_list_query_matches("?=x&list-type=2&max-keys=1&prefix=a", "a", 1, None));
}

#[test]
fn built_queries_hold_exactly_their_fields() {
    for (prefix, max_keys, token) in
        [("é &=#?%", 1000, None), ("exports/", 7, Some("a=b&c")), ("p", 1, Some("%25"))]
    {
        let query = build_list_query(prefix, max_keys, token).expect("query");
        let fields: Vec<(String, Vec<u8>)> = query
            .split('&')
            .map(|field| field.split_once('=').expect("a field"))
            .map(|(name, value)| (name.to_string(), decoded(value.as_bytes())))
            .collect();
        let mut expected: Vec<(String, Vec<u8>)> = Vec::new();
        if let Some(token) = token {
            expected.push(("continuation-token".to_string(), token.as_bytes().to_vec()));
        }
        expected.push(("list-type".to_string(), b"2".to_vec()));
        expected.push(("max-keys".to_string(), format!("{max_keys}").into_bytes()));
        expected.push(("prefix".to_string(), prefix.as_bytes().to_vec()));
        assert_eq!(fields, expected);
    }
}

#[test]
fn different_objects_have_different_uris() {
    let objects =
        [("results", "a/b"), ("results", "a%2Fb"), ("results.a", "b"), ("results", "/a/b"), ("other", "a/b")];
    for (i, (bucket, key)) in objects.iter().enumerate() {
        let uri = build_head_canonical_uri(bucket, key).expect("URI");
        let encoded = uri.strip_prefix(&format!("/{bucket}/")).expect("the bucket");
        assert_eq!(decoded(encoded.as_bytes()), key.as_bytes());
        for (other_bucket, other_key) in &objects[i + 1..] {
            assert_ne!(Ok(uri.clone()), build_head_canonical_uri(other_bucket, other_key));
        }
    }
}

#[test]
fn presigned_queries_are_strict() {
    let longest = "q".repeat(MAX_QUERY_BYTES);
    for query in ["a", "a?b", "a=b&c", longest.as_str()] {
        assert!(valid_presigned_query(query.as_bytes()));
    }
    let longer = "q".repeat(MAX_QUERY_BYTES + 1);
    for query in ["", "?a", "a#b", "a b", "a\r\nb", "é", longer.as_str()] {
        assert!(!valid_presigned_query(query.as_bytes()));
    }
    for query in [
        "list-type=2&max-keys=1&prefix=a&flag",
        "list-type=2&max-keys=1&prefix=a&=x",
        "list-type=2&max-keys=1&prefix=a&x=1&x=2",
        "list-type=2&max-keys=01&prefix=a",
        "list-type=2&max-keys=1",
        "list-type=2&max-keys=1&prefix=a&",
    ] {
        assert!(!presigned_list_query_matches(query, "a", 1, None), "{query}");
    }
    assert!(presigned_list_query_matches("x==&prefix=a&max-keys=1&list-type=2", "a", 1, None));
}

#[test]
fn authorities_are_strict() {
    for authority in [
        "a", "a.b-c:1", "127.0.0.1:65535", "x:00080", "[::]", "[::1]:9000", "[1::]",
        "[1:2:3:4:5:6:7:8]", "[1:2:3:4:5:6:7::]", "[::2:3:4:5:6:7:8]", "[1::3:4:5:6:7:8]",
        "[::1.2.3.4]", "[1:2:3:4:5:6:1.2.3.4]", "[::ffff:255.255.255.255]", "[1:2:3:4:5::1.2.3.4]",
        "[ABCD:ef01::0]",
    ] {
        assert!(valid_presigned_authority(authority.as_bytes()), "{authority}");
    }
    for authority in [
        ":1", "a:", "a:0", "a:65536", "a:1:2", "a_b", "a b", "é", "[]", "[:]", "[:::]", "[1]",
        "[1:2:3:4:5:6:7]", "[1:2:3:4:5:6:7:8:9]", "[1:2:3:4:5:6:7:8::]", "[::1::]", "[1:::2]",
        "[12345::]", "[g::]", "[:1:2:3:4:5:6:7:8]", "[1:2:3:4:5:6:7:]", "[1.2.3.4::]", "[1.2.3.4]",
        "[::1.2.3]", "[::1.2.3.4.5]", "[::1.2.3.256]", "[::01.2.3.4]", "[::1.2.3.4:5]",
        "[1:2:3:4:5:6:7:1.2.3.4]", "[1:2:3:4:5:6::1.2.3.4]", "[::1%1]", "[::1", "[::1]9000",
        "[::1]:", "[::1]:0", "::1",
    ] {
        assert!(!valid_presigned_authority(authority.as_bytes()), "{authority}");
    }
    assert!(valid_presigned_authority("a".repeat(255).as_bytes()));
    assert!(!valid_presigned_authority("a".repeat(256).as_bytes()));
    assert!(valid_port(b"1") && valid_port(b"65535") && valid_port(b"000000001"));
    assert!(!valid_port(b"") && !valid_port(b"+1") && !valid_port(b"0") && !valid_port(b"1a"));
}

#[test]
fn endpoints_are_names() {
    assert!(valid_endpoint(b"minio") && valid_endpoint(b"A_b-c.9"));
    assert!(valid_endpoint(&[b'a'; 128]) && !valid_endpoint(&[b'a'; 129]));
    assert!(!valid_endpoint(b"") && !valid_endpoint(b"a:1") && !valid_endpoint(b"a/b"));
}

#[test]
fn requests_have_exactly_the_intended_lines() {
    let request = build_get_request("minio", "results", "a b\r\nX: y", None, None, 1).expect("request");
    assert_eq!(
        request,
        b"GET /results/a%20b%0D%0AX%3A%20y HTTP/1.1\r\nHost: minio\r\nAccept-Encoding: identity\r\nConnection: close\r\n\r\n"
    );
    let head = build_head_request("minio", "results", "k", Some("q=1"), None).expect("request");
    let text = String::from_utf8(head).expect("ASCII");
    let lines: Vec<&str> = text.split("\r\n").collect();
    assert_eq!(
        lines,
        vec![
            "HEAD /results/k?q=1 HTTP/1.1",
            "Host: minio",
            "Accept-Encoding: identity",
            "Connection: close",
            "",
            "",
        ]
    );
}

#[test]
fn refused_requests_say_why() {
    assert_eq!(
        build_get_request("a:1", "results", "k", None, None, 1),
        Err(invalid("invalid S3 endpoint, bucket, or key"))
    );
    assert_eq!(
        build_get_request("a", "results", "k", Some("#"), None, 1),
        Err(invalid("invalid presigned query"))
    );
    assert_eq!(
        build_get_request("a", "results", "k", Some("q"), Some("b:0"), 1),
        Err(invalid("invalid presigned authority"))
    );
    assert_eq!(
        build_head_request("a", "results", "k", None, Some("b")),
        Err(invalid("invalid presigned authority"))
    );
    assert_eq!(
        build_get_request("a", "results", "k", None, None, 0),
        Err(limit("requested object byte limit is outside the supported range"))
    );
    assert_eq!(
        build_head_request("a", "r", "k", None, None),
        Err(invalid("invalid S3 bucket or key"))
    );
    assert_eq!(
        build_list_request("a:1", "results", "p", 1, None, None, None),
        Err(invalid("invalid S3 list endpoint"))
    );
    for (query, authority) in [(None, Some("b")), (Some("q=1"), None), (Some("q=1"), Some("b:0"))] {
        assert_eq!(
            build_list_request("a", "results", "p", 1, None, query, authority),
            Err(invalid("invalid presigned list authority"))
        );
    }
    assert_eq!(
        build_list_request("a", "results", "p", 1, None, Some("q=1"), Some("b")),
        Err(invalid("presigned query does not match S3 list options"))
    );
    assert_eq!(
        build_list_request("a", "r", "p", 1, None, None, None),
        Err(invalid("invalid S3 bucket for object listing"))
    );
    assert_eq!(
        build_list_request("a", "results", "", 1, None, None, None),
        Err(invalid("S3 list prefix is outside the supported range"))
    );
}
