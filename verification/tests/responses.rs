//! What is read of responses, and what is not.

use sigil_s3::chunked::{
    chunked_progress, decode_chunked, find_crlf, ChunkedProgress, MAX_CHUNKS,
};
use sigil_s3::error::{HttpError, HttpErrorKind};
use sigil_s3::header::{parse_status, MAX_HEADER_BYTES};
use sigil_s3::response::{
    decode_head_response, decode_response, decode_signed_response, next_head_read_size,
    next_read_size, next_signed_read_size, response_body_limit, structured_s3_clock_skew_code,
    MAX_S3_ERROR_BODY_BYTES,
};

fn fixed(body: &[u8]) -> Vec<u8> {
    let mut raw = format!("HTTP/1.1 200 OK\r\nContent-Length: {}\r\n\r\n", body.len()).into_bytes();
    raw.extend_from_slice(body);
    raw
}

fn chunked(body: &[u8]) -> Vec<u8> {
    let mut raw = b"HTTP/1.1 200 OK\r\nTransfer-Encoding: chunked\r\n\r\n".to_vec();
    raw.extend_from_slice(body);
    raw
}

fn protocol(message: &'static str) -> HttpError {
    HttpError { kind: HttpErrorKind::Protocol, status: None, message }
}

fn limit(message: &'static str) -> HttpError {
    HttpError { kind: HttpErrorKind::Limit, status: None, message }
}

#[test]
fn chunks_that_are_sent_read_back() {
    let body = b"4\r\nWiki\r\n00000005\r\npedia\r\nE\r\n in\r\n\r\nchunks.\r\n0\r\n\r\n";
    let expected = b"Wikipedia in\r\n\r\nchunks.".to_vec();
    assert_eq!(decode_chunked(body, expected.len()), Ok(expected.clone()));
    assert_eq!(decode_chunked(b"a\r\n0123456789\r\n000\r\n\r\n", 10), Ok(b"0123456789".to_vec()));
    assert_eq!(decode_chunked(b"0\r\n\r\n", 0), Ok(Vec::new()));
    assert_eq!(
        decode_chunked(body, expected.len() - 1),
        Err(limit("S3 object exceeds the requested byte limit"))
    );
}

#[test]
fn other_chunks_do_not_decode() {
    for (body, error) in [
        (b"".as_slice(), protocol("S3 response has a truncated HTTP chunk size")),
        (b"\r\n".as_slice(), protocol("S3 response has an invalid HTTP chunk size")),
        (b"000000001\r\nA\r\n0\r\n\r\n".as_slice(), protocol("S3 response has an invalid HTTP chunk size")),
        (b"+1\r\nA\r\n0\r\n\r\n".as_slice(), protocol("S3 response has an invalid HTTP chunk size")),
        (b"2\r\nA".as_slice(), protocol("S3 response has a truncated HTTP chunk")),
        (b"1\r\nAB\r\n0\r\n\r\n".as_slice(), protocol("S3 response has malformed HTTP chunk framing")),
        (b"1\r\nA\r\n".as_slice(), protocol("S3 response has a truncated HTTP chunk size")),
    ] {
        assert_eq!(decode_chunked(body, 100), Err(error));
    }
    let trailers = HttpError {
        kind: HttpErrorKind::Unsupported,
        status: None,
        message: "S3 response trailers are unsupported",
    };
    assert_eq!(decode_chunked(b"0\r\nX: y\r\n\r\n", 100), Err(trailers.clone()));
    assert_eq!(decode_chunked(b"0\r\n\r\nmore", 100), Err(trailers.clone()));
    assert_eq!(decode_chunked(b"0\r\n", 100), Err(trailers));
}

#[test]
fn chunks_are_counted() {
    let mut body = b"1\r\nA\r\n".repeat(MAX_CHUNKS - 1);
    body.extend_from_slice(b"0\r\n\r\n");
    assert_eq!(decode_chunked(&body, MAX_CHUNKS), Ok(vec![b'A'; MAX_CHUNKS - 1]));
    assert_eq!(chunked_progress(&body, MAX_CHUNKS), Ok(ChunkedProgress::Complete));
    let mut over = b"1\r\nA\r\n".repeat(MAX_CHUNKS);
    over.extend_from_slice(b"0\r\n\r\n");
    let error = limit("S3 response contains too many HTTP chunks");
    assert_eq!(decode_chunked(&over, 2 * MAX_CHUNKS), Err(error.clone()));
    assert_eq!(chunked_progress(&over, 2 * MAX_CHUNKS), Err(error));
}

#[test]
fn progress_asks_for_what_a_chunk_still_needs() {
    for (body, expected) in [
        (b"".as_slice(), ChunkedProgress::Need(5)),
        (b"4".as_slice(), ChunkedProgress::Need(4)),
        (b"4\r".as_slice(), ChunkedProgress::Need(3)),
        (b"00000004".as_slice(), ChunkedProgress::Need(4)),
        (b"4\r\n".as_slice(), ChunkedProgress::Need(6)),
        (b"4\r\nABCD".as_slice(), ChunkedProgress::Need(2)),
        (b"4\r\nABCD\r\n".as_slice(), ChunkedProgress::Need(5)),
        (b"4\r\nABCD\r\n0\r\n".as_slice(), ChunkedProgress::Need(2)),
        (b"4\r\nABCD\r\n0\r\n\r".as_slice(), ChunkedProgress::Need(1)),
        (b"4\r\nABCD\r\n0\r\n\r\n".as_slice(), ChunkedProgress::Complete),
    ] {
        assert_eq!(chunked_progress(body, 4), Ok(expected));
    }
    assert_eq!(
        chunked_progress(b"0123456789", 4),
        Err(protocol("S3 response has an invalid HTTP chunk size"))
    );
    assert_eq!(
        chunked_progress(b"5\r\n", 4),
        Err(limit("S3 object exceeds the requested byte limit"))
    );
}

#[test]
fn truncated_responses_are_refused_and_ask_for_more() {
    for (raw, header_end, has_length) in [
        (fixed(b"exact bytes\r\n\r\n"), 39, true),
        (chunked(b"b\r\nexact bytes\r\n4\r\n\r\n\r\n\r\n0\r\n\r\n"), 47, false),
    ] {
        assert_eq!(&raw[header_end - 4..header_end], b"\r\n\r\n");
        assert_eq!(decode_response(&raw, 15), Ok(b"exact bytes\r\n\r\n".to_vec()));
        assert_eq!(next_read_size(&raw, 15), Ok(None));
        for k in 0..raw.len() {
            assert!(decode_response(&raw[..k], 15).is_err());
            let asked = next_read_size(&raw[..k], 15).expect("a prefix is no error").expect("more");
            if k < header_end {
                assert_eq!(asked, MAX_HEADER_BYTES - k);
            } else {
                assert!(0 < asked && asked <= raw.len() - k);
                if has_length {
                    assert_eq!(asked, raw.len() - k);
                }
            }
        }
    }
}

#[test]
fn responses_without_framing_are_probed_and_refused() {
    let raw = b"HTTP/1.0 200 OK\r\nServer: x\r\n\r\nABC";
    let unframed = protocol("S3 response has no exact body framing");
    for max_bytes in [3, 10] {
        assert_eq!(decode_response(raw, max_bytes), Err(unframed.clone()));
        assert_eq!(decode_signed_response(raw, max_bytes), Err(unframed.clone()));
    }
    assert_eq!(decode_response(b"HTTP/1.1 200 OK\r\n\r\n", 4), Err(unframed.clone()));
    assert_eq!(decode_response(b"HTTP/1.1 200 OK\r\n\r\nABCD", 4), Err(unframed));
    assert_eq!(next_read_size(raw, 3), Ok(Some(1)));
    assert_eq!(next_read_size(raw, 10), Ok(Some(8)));
    let error = limit("S3 object exceeds the requested byte limit");
    assert_eq!(decode_response(raw, 2), Err(error.clone()));
    assert_eq!(next_read_size(raw, 2), Err(error));
}

#[test]
fn clock_skew_is_told_without_framing() {
    let raw = b"HTTP/1.1 403 Forbidden\r\n\r\n<Error><Code>RequestExpired</Code></Error>";
    let error = decode_signed_response(raw, 1).expect_err("status must fail");
    assert_eq!(error.kind, HttpErrorKind::ClockSkew);
    assert_eq!(error.status, Some(403));
    let unsigned = decode_response(raw, 1).expect_err("status must fail");
    assert_eq!(unsigned.kind, HttpErrorKind::Denied);
    assert_eq!(unsigned.status, Some(403));
    let other = b"HTTP/1.1 403 Forbidden\r\n\r\n<Error><Code>AccessDenied</Code></Error>";
    let denied = decode_signed_response(other, 1).expect_err("status must fail");
    assert_eq!(denied.kind, HttpErrorKind::Denied);
}

#[test]
fn order_case_and_other_lines_do_not_matter() {
    let first = b"HTTP/1.1 200 OK\r\nContent-Length: 7\r\nETag: \"a\"\r\nLast-Modified: now\r\n\r\n";
    let second = b"HTTP/1.1 200 OK\r\nX-Other: 1\r\nlast-modified: now\r\nETAG: \"a\"\r\nDate: then\r\ncontent-LENGTH: 7\r\n\r\n";
    assert!(decode_head_response(first).is_ok());
    assert_eq!(decode_head_response(first), decode_head_response(second));
    let refused = b"HTTP/1.1 200 OK\r\nETag: a\r\nX: y\r\nEtag: a\r\n\r\n";
    let reordered = b"HTTP/1.1 200 OK\r\nX: y\r\nEtag: a\r\nETag: a\r\n\r\n";
    assert!(decode_head_response(refused).is_err());
    assert!(decode_head_response(reordered).is_err());
}

#[test]
fn line_ends_are_found_from_a_start() {
    let raw = b"a\r\nb\r\n";
    assert_eq!(find_crlf(raw, 0), Some(1));
    assert_eq!(find_crlf(raw, 2), Some(4));
    assert_eq!(find_crlf(raw, 6), None);
    assert_eq!(find_crlf(raw, 7), None);
}

#[test]
fn a_body_longer_than_its_length_is_refused() {
    let mut raw = fixed(b"ABC");
    raw.push(b'D');
    assert_eq!(
        decode_response(&raw, 100),
        Err(protocol("S3 response body does not match Content-Length"))
    );
    assert_eq!(next_read_size(&raw, 100), Ok(None));
}

#[test]
fn header_fields_are_read_in_any_case_and_only_once() {
    let raw = b"HTTP/1.1 200 OK\r\ncOnTeNt-LeNgTh:\t +4 \t\r\nX-Other: 1\r\nX-Other: 2\r\n\r\nABCD";
    assert_eq!(decode_response(raw, 4), Ok(b"ABCD".to_vec()));
    for (name, value, message) in [
        ("Content-Length", "0", "S3 response repeats Content-Length"),
        ("Transfer-Encoding", "chunked", "S3 response repeats Transfer-Encoding"),
        ("Content-Encoding", "identity", "S3 response repeats Content-Encoding"),
        ("ETag", "x", "S3 response repeats ETag"),
        ("Last-Modified", "x", "S3 response repeats Last-Modified"),
    ] {
        let raw = format!(
            "HTTP/1.1 200 OK\r\n{name}: {value}\r\nX: y\r\n{}: {value}\r\n\r\n",
            name.to_uppercase()
        );
        assert_eq!(decode_head_response(raw.as_bytes()), Err(protocol(message)));
        assert_eq!(decode_response(raw.as_bytes(), 10), Err(protocol(message)));
    }
}

#[test]
fn malformed_headers_are_told_apart() {
    for (raw, message) in [
        ("HTTP/1.1 200 OK\r\nno colon\r\n\r\n", "S3 response contains a malformed HTTP header"),
        ("HTTP/1.1 200 OK\r\n: x\r\n\r\n", "S3 response contains a malformed HTTP header"),
        ("HTTP/1.1 200 OK\r\nX: \u{7f}\r\n\r\n", "S3 response contains a malformed HTTP header"),
        ("HTTP/1.1 200 OK\r\nX: \u{e9}\r\n\r\n", "S3 response header is not valid ASCII"),
        ("HTTP/1.1 200 OK\r\nContent-Length: -1\r\n\r\n", "S3 response has an invalid Content-Length"),
        ("HTTP/1.1 200 OK\r\nContent-Length:\r\n\r\n", "S3 response has an invalid Content-Length"),
        ("HTTP/1.1 200 OK\r\nContent-Length: ++1\r\n\r\n", "S3 response has an invalid Content-Length"),
        (
            "HTTP/1.1 200 OK\r\nContent-Length: 1\r\nTransfer-Encoding: chunked\r\n\r\n",
            "S3 response mixes Content-Length and Transfer-Encoding",
        ),
        ("HTTP/1.1  200 OK\r\n\r\n", "S3 response has an invalid HTTP status"),
        ("http/1.1 200 OK\r\n\r\n", "S3 response uses an unsupported HTTP version"),
        ("HTTP/1.1 200 OK\r\nX: y\r\n", "S3 response has no complete HTTP header"),
    ] {
        assert_eq!(decode_response(raw.as_bytes(), 10), Err(protocol(message)));
    }
    for (raw, message) in [
        ("HTTP/1.1 200 OK\r\nTransfer-Encoding: gzip\r\n\r\n", "unsupported HTTP transfer encoding"),
        (
            "HTTP/1.1 200 OK\r\nContent-Encoding: gzip\r\n\r\n",
            "compressed HTTP content encoding is unsupported",
        ),
    ] {
        assert_eq!(
            decode_response(raw.as_bytes(), 10),
            Err(HttpError { kind: HttpErrorKind::Unsupported, status: None, message })
        );
    }
    assert_eq!(
        decode_response(b"HTTP/1.1 200 OK\r\nContent-Encoding: IDENTITY\r\nContent-Length: 1\r\n\r\nA", 10),
        Ok(b"A".to_vec())
    );
}

#[test]
fn status_lines_are_exact() {
    assert_eq!(parse_status(b"HTTP/1.1 200 OK"), Ok(200));
    assert_eq!(parse_status(b"HTTP/1.0 599"), Ok(599));
    assert_eq!(parse_status(b"HTTP/1.1 100 "), Ok(100));
    for line in ["HTTP/1.1", "HTTP/1.1 ", "HTTP/1.1 20", "HTTP/1.1 2000", "HTTP/1.1 099", "HTTP/1.1 600", "HTTP/1.1 +20"] {
        assert_eq!(
            parse_status(line.as_bytes()),
            Err(protocol("S3 response has an invalid HTTP status"))
        );
    }
    for line in ["", "HTTP/1.1\t200", "HTTP/2 200"] {
        assert_eq!(
            parse_status(line.as_bytes()),
            Err(protocol("S3 response uses an unsupported HTTP version"))
        );
    }
}

#[test]
fn body_limits_follow_the_status() {
    assert_eq!(response_body_limit(200, 7, false), Ok(7));
    assert_eq!(response_body_limit(200, 7, true), Ok(7));
    assert_eq!(response_body_limit(404, 7, true), Ok(MAX_S3_ERROR_BODY_BYTES));
    assert_eq!(response_body_limit(404, 7, false).expect_err("404").kind, HttpErrorKind::NotFound);
    assert_eq!(response_body_limit(500, 7, true).expect_err("500").kind, HttpErrorKind::Server);
    assert_eq!(response_body_limit(301, 7, true).expect_err("301").kind, HttpErrorKind::Unsupported);
}

#[test]
fn clock_skew_codes_are_exact() {
    for body in [
        "<Error><Code>RequestExpired</Code></Error>",
        " \u{2003}\n<?xml anything?>\u{85}<Error>\t<Code>RequestExpired</Code>",
    ] {
        assert_eq!(structured_s3_clock_skew_code(body.as_bytes()), Some("RequestExpired"));
    }
    assert_eq!(
        structured_s3_clock_skew_code(b"<Error><Code>RequestTimeTooSkewed</Code>"),
        Some("RequestTimeTooSkewed")
    );
    for body in [
        "",
        "<Error><Code>RequestExpired",
        "<Error><Code> RequestExpired</Code></Error>",
        "<Error ><Code>RequestExpired</Code></Error>",
        "<?xml <Error><Code>RequestExpired</Code></Error>",
        "\u{200b}<Error><Code>RequestExpired</Code></Error>",
    ] {
        assert_eq!(structured_s3_clock_skew_code(body.as_bytes()), None);
    }
    assert_eq!(structured_s3_clock_skew_code(b"<Error><Code>RequestExpired</Code>\xff"), None);
}

#[test]
fn failures_hide_the_body_and_signed_objects_are_the_same() {
    let ok = fixed(b"object");
    assert_eq!(decode_signed_response(&ok, 6), decode_response(&ok, 6));
    let refused = b"HTTP/1.1 403 Forbidden\r\nContent-Length: 6\r\n\r\nsecret";
    let denied = HttpError {
        kind: HttpErrorKind::Denied,
        status: Some(403),
        message: "S3 request was denied",
    };
    assert_eq!(decode_signed_response(refused, 1), Err(denied.clone()));
    assert_eq!(decode_response(refused, 1), Err(denied.clone()));
    assert_eq!(next_read_size(refused, 1), Err(denied));
    assert_eq!(next_signed_read_size(refused, 1), Ok(None));
}

#[test]
fn metadata_needs_the_whole_header_and_nothing_else() {
    let raw = b"HTTP/1.1 200 OK\r\nETag: \"a b\"\t\r\nContent-Length: 5766\r\n\r\n";
    let metadata = decode_head_response(raw).expect("metadata");
    assert_eq!(metadata.etag.as_deref(), Some("\"a b\""));
    assert_eq!(metadata.content_length, Some(5766));
    assert_eq!(metadata.last_modified, None);
    assert_eq!(next_head_read_size(raw), Ok(None));
    for k in 0..raw.len() {
        assert!(decode_head_response(&raw[..k]).is_err());
        assert_eq!(next_head_read_size(&raw[..k]), Ok(Some(MAX_HEADER_BYTES - k)));
    }
    let mut longer = raw.to_vec();
    longer.push(b'x');
    assert_eq!(
        decode_head_response(&longer),
        Err(protocol("S3 HEAD response unexpectedly contains body bytes"))
    );
    assert_eq!(
        decode_head_response(b"HTTP/1.1 200 OK\r\nTransfer-Encoding: chunked\r\n\r\n"),
        Err(protocol("S3 HEAD response uses transfer framing"))
    );
}
