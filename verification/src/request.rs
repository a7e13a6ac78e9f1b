//! The requests that are sent.

use crate::authority;
use crate::bytes;
use crate::error;
use crate::error::{HttpError, HttpErrorKind};
use crate::list;
use crate::query;
use crate::text;
use crate::uri;
use vstd::prelude::*;
use vstd::string::*;
use vstd::utf8::*;

verus! {

/// The first line of a request.
pub open spec fn request_line(method: Seq<u8>, target: Seq<u8>) -> Seq<u8> {
    method + " ".spec_bytes() + target + " HTTP/1.1".spec_bytes()
}

/// The line that names the host.
pub open spec fn host_line(authority: Seq<u8>) -> Seq<u8> {
    "Host: ".spec_bytes() + authority
}

/// A request without a body.
pub open spec fn message(method: Seq<u8>, target: Seq<u8>, authority: Seq<u8>) -> Seq<u8> {
    request_line(method, target) + bytes::crlf() + host_line(authority) + bytes::crlf()
        + "Accept-Encoding: identity".spec_bytes() + bytes::crlf()
        + "Connection: close".spec_bytes() + bytes::crlf() + bytes::crlf()
}

fn write_message(method: &[u8], target: &[u8], authority: &[u8]) -> (result: Vec<u8>)
    ensures
        result@ == message(method@, target@, authority@),
{
    let mut request: Vec<u8> = Vec::new();
    text::append(&mut request, method);
    text::append(&mut request, " ".as_bytes());
    text::append(&mut request, target);
    text::append(&mut request, " HTTP/1.1".as_bytes());
    text::append(&mut request, bytes::crlf_bytes());
    text::append(&mut request, "Host: ".as_bytes());
    text::append(&mut request, authority);
    text::append(&mut request, bytes::crlf_bytes());
    text::append(&mut request, "Accept-Encoding: identity".as_bytes());
    text::append(&mut request, bytes::crlf_bytes());
    text::append(&mut request, "Connection: close".as_bytes());
    text::append(&mut request, bytes::crlf_bytes());
    text::append(&mut request, bytes::crlf_bytes());
    assert(request@ =~= message(method@, target@, authority@));
    request
}

/// A path with its query, where there is one.
pub open spec fn with_query(path: Seq<u8>, query: Option<Seq<u8>>) -> Seq<u8> {
    match query {
        Some(query) => path + "?".spec_bytes() + query,
        None => path,
    }
}

/// The authority that a request names: the presigned one, or the endpoint.
pub open spec fn named_authority(endpoint: Seq<u8>, authority: Option<Seq<u8>>) -> Seq<u8> {
    match authority {
        Some(authority) => authority,
        None => endpoint,
    }
}

/// The path of an object: for its bytes, up to a limit, or for its metadata.
pub open spec fn object_path(bucket: Seq<u8>, key: Seq<u8>, max: Option<int>) -> Result<
    Seq<u8>,
    HttpError,
> {
    match max {
        Some(limit) => uri::get_uri(bucket, key, limit),
        None => uri::head_uri(bucket, key),
    }
}

/// The request for an object. An authority is meaningful only with a presigned
/// query; the endpoint is always the route.
pub open spec fn object_request(
    method: Seq<u8>,
    endpoint: Seq<u8>,
    bucket: Seq<u8>,
    key: Seq<u8>,
    query: Option<Seq<u8>>,
    authority: Option<Seq<u8>>,
    max: Option<int>,
) -> Result<Seq<u8>, HttpError> {
    if !authority::is_endpoint(endpoint) {
        Err(HttpError::new(HttpErrorKind::InvalidRequest, "invalid S3 endpoint, bucket, or key"))
    } else if query matches Some(text) && !query::is_presigned_query(text) {
        Err(HttpError::new(HttpErrorKind::InvalidRequest, "invalid presigned query"))
    } else if authority matches Some(text) && (!authority::is_authority(text) || query is None) {
        Err(HttpError::new(HttpErrorKind::InvalidRequest, "invalid presigned authority"))
    } else {
        match object_path(bucket, key, max) {
            Err(error) => Err(error),
            Ok(path) => Ok(
                message(method, with_query(path, query), named_authority(endpoint, authority)),
            ),
        }
    }
}

/// The limit as a mathematical integer.
pub open spec fn optional_limit(max_bytes: Option<usize>) -> Option<int> {
    match max_bytes {
        Some(limit) => Some(limit as int),
        None => None,
    }
}

fn build_request(
    method: &str,
    endpoint: &str,
    bucket: &str,
    key: &str,
    presigned_query: Option<&str>,
    presigned_authority: Option<&str>,
    max_bytes: Option<usize>,
) -> (result: Result<Vec<u8>, HttpError>)
    ensures
        error::agrees(
            result,
            object_request(
                method.spec_bytes(),
                endpoint.spec_bytes(),
                bucket.spec_bytes(),
                key.spec_bytes(),
                list::optional_bytes(presigned_query),
                list::optional_bytes(presigned_authority),
                optional_limit(max_bytes),
            ),
        ),
{
    if !authority::valid_endpoint(endpoint.as_bytes()) {
        return Err(
            HttpError::new(HttpErrorKind::InvalidRequest, "invalid S3 endpoint, bucket, or key"),
        );
    }
    if let Some(query) = presigned_query {
        if !query::valid_presigned_query(query.as_bytes()) {
            return Err(HttpError::new(HttpErrorKind::InvalidRequest, "invalid presigned query"));
        }
    }
    if let Some(authority) = presigned_authority {
        if !authority::valid_presigned_authority(authority.as_bytes()) || presigned_query.is_none() {
            return Err(
                HttpError::new(HttpErrorKind::InvalidRequest, "invalid presigned authority"),
            );
        }
    }
    let path = match max_bytes {
        None => uri::build_head_canonical_uri(bucket, key)?,
        Some(limit) => uri::build_canonical_uri(bucket, key, limit)?,
    };
    let mut target: Vec<u8> = Vec::new();
    text::append(&mut target, path.as_str().as_bytes());
    if let Some(query) = presigned_query {
        text::append(&mut target, "?".as_bytes());
        text::append(&mut target, query.as_bytes());
    }
    assert(target@ =~= with_query(
        encode_utf8(path@),
        list::optional_bytes(presigned_query),
    ));
    let authority = match presigned_authority {
        Some(authority) => authority,
        None => endpoint,
    };
    Ok(write_message(method.as_bytes(), target.as_slice(), authority.as_bytes()))
}

/// Builds the request for an object's bytes.
pub fn build_get_request(
    endpoint: &str,
    bucket: &str,
    key: &str,
    presigned_query: Option<&str>,
    presigned_authority: Option<&str>,
    max_bytes: usize,
) -> (result: Result<Vec<u8>, HttpError>)
    ensures
        error::agrees(
            result,
            object_request(
                "GET".spec_bytes(),
                endpoint.spec_bytes(),
                bucket.spec_bytes(),
                key.spec_bytes(),
                list::optional_bytes(presigned_query),
                list::optional_bytes(presigned_authority),
                Some(max_bytes as int),
            ),
        ),
{
    build_request(
        "GET",
        endpoint,
        bucket,
        key,
        presigned_query,
        presigned_authority,
        Some(max_bytes),
    )
}

/// Builds the request for an object's metadata.
pub fn build_head_request(
    endpoint: &str,
    bucket: &str,
    key: &str,
    presigned_query: Option<&str>,
    presigned_authority: Option<&str>,
) -> (result: Result<Vec<u8>, HttpError>)
    ensures
        error::agrees(
            result,
            object_request(
                "HEAD".spec_bytes(),
                endpoint.spec_bytes(),
                bucket.spec_bytes(),
                key.spec_bytes(),
                list::optional_bytes(presigned_query),
                list::optional_bytes(presigned_authority),
                None,
            ),
        ),
{
    build_request("HEAD", endpoint, bucket, key, presigned_query, presigned_authority, None)
}

/// The request for one page of a listing. A presigned query must come with an
/// authority, and ask for exactly this page.
pub open spec fn list_request(
    endpoint: Seq<u8>,
    bucket: Seq<u8>,
    prefix: Seq<u8>,
    max_keys: u32,
    token: Option<Seq<u8>>,
    query: Option<Seq<u8>>,
    authority: Option<Seq<u8>>,
) -> Result<Seq<u8>, HttpError> {
    if !authority::is_endpoint(endpoint) {
        Err(HttpError::new(HttpErrorKind::InvalidRequest, "invalid S3 list endpoint"))
    } else if (authority matches Some(text) && !authority::is_authority(text)) || (authority is Some)
        != (query is Some) {
        Err(HttpError::new(HttpErrorKind::InvalidRequest, "invalid presigned list authority"))
    } else {
        match query::list_query(prefix, max_keys, token) {
            Err(error) => Err(error),
            Ok(canonical) => if query matches Some(text) && !query::is_query_for(
                text,
                prefix,
                max_keys,
                token,
            ) {
                Err(
                    HttpError::new(
                        HttpErrorKind::InvalidRequest,
                        "presigned query does not match S3 list options",
                    ),
                )
            } else {
                match uri::list_uri(bucket) {
                    Err(error) => Err(error),
                    Ok(path) => Ok(
                        message(
                            "GET".spec_bytes(),
                            with_query(
                                path,
                                Some(
                                    match query {
                                        Some(text) => text,
                                        None => canonical,
                                    },
                                ),
                            ),
                            named_authority(endpoint, authority),
                        ),
                    ),
                }
            },
        }
    }
}

/// Builds the request for one page of a listing.
pub fn build_list_request(
    endpoint: &str,
    bucket: &str,
    prefix: &str,
    max_keys: u32,
    continuation_token: Option<&str>,
    presigned_query: Option<&str>,
    presigned_authority: Option<&str>,
) -> (result: Result<Vec<u8>, HttpError>)
    ensures
        error::agrees(
            result,
            list_request(
                endpoint.spec_bytes(),
                bucket.spec_bytes(),
                prefix.spec_bytes(),
                max_keys,
                list::optional_bytes(continuation_token),
                list::optional_bytes(presigned_query),
                list::optional_bytes(presigned_authority),
            ),
        ),
{
    if !authority::valid_endpoint(endpoint.as_bytes()) {
        return Err(HttpError::new(HttpErrorKind::InvalidRequest, "invalid S3 list endpoint"));
    }
    let authority_is_valid = match presigned_authority {
        Some(authority) => authority::valid_presigned_authority(authority.as_bytes()),
        None => true,
    };
    if !authority_is_valid || presigned_authority.is_some() != presigned_query.is_some() {
        return Err(
            HttpError::new(HttpErrorKind::InvalidRequest, "invalid presigned list authority"),
        );
    }
    let canonical_query = query::build_list_query(prefix, max_keys, continuation_token)?;
    let query = match presigned_query {
        Some(query) => {
            if !query::presigned_list_query_matches(query, prefix, max_keys, continuation_token) {
                return Err(
                    HttpError::new(
                        HttpErrorKind::InvalidRequest,
                        "presigned query does not match S3 list options",
                    ),
                );
            }
            query.as_bytes()
        },
        None => canonical_query.as_str().as_bytes(),
    };
    let path = uri::build_list_canonical_uri(bucket)?;
    let mut target: Vec<u8> = Vec::new();
    text::append(&mut target, path.as_str().as_bytes());
    text::append(&mut target, "?".as_bytes());
    text::append(&mut target, query);
    assert(target@ =~= with_query(encode_utf8(path@), Some(query@)));
    let authority = match presigned_authority {
        Some(authority) => authority,
        None => endpoint,
    };
    Ok(write_message("GET".as_bytes(), target.as_slice(), authority.as_bytes()))
}

/// Whether a text is visible ASCII.
pub open spec fn is_visible(s: Seq<u8>) -> bool {
    bytes::all(s, |b: u8| bytes::is_graphic(b))
}

/// The lines of a request: they are all there are, and a blank line ends them.
pub open spec fn message_lines(method: Seq<u8>, target: Seq<u8>, authority: Seq<u8>) -> Seq<
    Seq<u8>,
> {
    seq![
        request_line(method, target),
        host_line(authority),
        "Accept-Encoding: identity".spec_bytes(),
        "Connection: close".spec_bytes(),
        Seq::empty(),
        Seq::empty(),
    ]
}

/// Whether bytes are one request that names exactly this method, target and
/// authority: its lines are the intended ones, its first line splits into the
/// intended words, and nothing follows its header.
pub open spec fn is_exactly(
    request: Seq<u8>,
    method: Seq<u8>,
    target: Seq<u8>,
    authority: Seq<u8>,
) -> bool {
    let lines = bytes::split_on(request, bytes::crlf());
    &&& lines == message_lines(method, target, authority)
    &&& bytes::split_on(lines[0], " ".spec_bytes()) == seq![
        method,
        target,
        "HTTP/1.1".spec_bytes(),
    ]
    &&& bytes::first_index(request, bytes::header_terminator()) == Some(request.len() - 4)
}

proof fn lemma_visible_is_free_of(s: Seq<u8>, b: u8)
    requires
        is_visible(s),
        !bytes::is_graphic(b),
    ensures
        bytes::is_free_of(s, b),
{
    assert forall|i: int| 0 <= i < s.len() implies #[trigger] s[i] != b by {
        assert(bytes::is_graphic(s[i]));
    }
}

/// The words of the first line.
proof fn lemma_request_words(method: Seq<u8>, target: Seq<u8>)
    requires
        is_visible(method),
        is_visible(target),
    ensures
        bytes::split_on(request_line(method, target), " ".spec_bytes()) == seq![
            method,
            target,
            "HTTP/1.1".spec_bytes(),
        ],
        bytes::is_free_of(request_line(method, target), 0x0d),
{
    reveal_strlit(" ");
    is_ascii_chars_encode_utf8(" "@);
    reveal_strlit("HTTP/1.1");
    is_ascii_chars_encode_utf8("HTTP/1.1"@);
    reveal_strlit(" HTTP/1.1");
    is_ascii_chars_encode_utf8(" HTTP/1.1"@);
    let space = " ".spec_bytes();
    let version = "HTTP/1.1".spec_bytes();
    let line = request_line(method, target);
    assert(" HTTP/1.1".spec_bytes() =~= space + version);
    lemma_visible_is_free_of(method, 0x20);
    lemma_visible_is_free_of(target, 0x20);
    lemma_visible_is_free_of(method, 0x0d);
    lemma_visible_is_free_of(target, 0x0d);
    bytes::lemma_split_none(version, space);
    bytes::lemma_split_first(target, space, version);
    bytes::lemma_split_first(method, space, target + space + version);
    assert(line =~= method + space + (target + space + version));
    assert(bytes::split_on(line, space) =~= seq![method, target, version]);
    assert forall|i: int| 0 <= i < line.len() implies #[trigger] line[i] != 0x0d by {
        let m = method.len() as int;
        let t = target.len() as int;
        if i < m {
            assert(method[i] != 0x0d);
        } else if i == m {
        } else if i <= m + t {
            assert(target[i - m - 1] != 0x0d);
        } else {
            assert(line[i] == " HTTP/1.1".spec_bytes()[i - m - t - 1]);
        }
    }
}

/// A request whose words and authority are visible ASCII is exactly what it
/// was built from.
proof fn lemma_message_is_exact(method: Seq<u8>, target: Seq<u8>, authority: Seq<u8>)
    requires
        is_visible(method),
        is_visible(target),
        is_visible(authority),
    ensures
        is_exactly(message(method, target, authority), method, target, authority),
{
    reveal_strlit("Host: ");
    is_ascii_chars_encode_utf8("Host: "@);
    reveal_strlit("Accept-Encoding: identity");
    is_ascii_chars_encode_utf8("Accept-Encoding: identity"@);
    reveal_strlit("Connection: close");
    is_ascii_chars_encode_utf8("Connection: close"@);
    let mark = bytes::crlf();
    let first = request_line(method, target);
    let host = host_line(authority);
    let accept = "Accept-Encoding: identity".spec_bytes();
    let close = "Connection: close".spec_bytes();
    let nothing = Seq::<u8>::empty();
    let all = message(method, target, authority);
    lemma_request_words(method, target);
    lemma_visible_is_free_of(authority, 0x0d);
    assert(bytes::is_free_of(host, 0x0d)) by {
        assert forall|i: int| 0 <= i < host.len() implies #[trigger] host[i] != 0x0d by {
            if i < 6 {
                assert(host[i] == "Host: ".spec_bytes()[i]);
            } else {
                assert(authority[i - 6] != 0x0d);
            }
        }
    }
    bytes::lemma_split_none(nothing, mark);
    bytes::lemma_split_first(nothing, mark, nothing);
    let blank = nothing + mark + nothing;
    bytes::lemma_split_first(close, mark, blank);
    let closing = close + mark + blank;
    bytes::lemma_split_first(accept, mark, closing);
    let accepting = accept + mark + closing;
    bytes::lemma_split_first(host, mark, accepting);
    let hosting = host + mark + accepting;
    bytes::lemma_split_first(first, mark, hosting);
    assert(all =~= first + mark + hosting);
    assert(bytes::split_on(all, mark) =~= message_lines(method, target, authority));
    lemma_ends_header(first, host, accept, close);
}

/// Four lines without carriage returns hold the end of a header only behind
/// the last of them.
proof fn lemma_ends_header(first: Seq<u8>, host: Seq<u8>, accept: Seq<u8>, close: Seq<u8>)
    requires
        bytes::is_free_of(first, 0x0d),
        bytes::is_free_of(host, 0x0d),
        bytes::is_free_of(accept, 0x0d),
        bytes::is_free_of(close, 0x0d),
        host.len() > 0,
        accept.len() > 0,
        close.len() > 0,
    ensures
        ({
            let crlf = bytes::crlf();
            let all = first + crlf + host + crlf + accept + crlf + close + crlf + crlf;
            bytes::first_index(all, bytes::header_terminator()) == Some(all.len() - 4)
        }),
{
    let crlf = bytes::crlf();
    let end = bytes::header_terminator();
    let all = first + crlf + host + crlf + accept + crlf + close + crlf + crlf;
    let n = all.len() - 4;
    let a = first.len() as int;
    let b = a + 2 + host.len();
    let c = b + 2 + accept.len();
    let d = c + 2 + close.len();
    assert(d == n);
    assert(all.subrange(n, n + 4) =~= end);
    assert forall|j: int| 0 <= j < n implies !bytes::occurs_at(all, end, j) by {
        if bytes::occurs_at(all, end, j) {
            assert(all.subrange(j, j + 4)[0] == end[0]);
            assert(all.subrange(j, j + 4)[2] == end[2]);
            assert(all[j] == 0x0d && all[j + 2] == 0x0d);
            if j < a {
                assert(all[j] == first[j]);
            } else if j == a {
                assert(all[j + 2] == host[0]);
            } else if j == a + 1 {
                assert(all[j] == 0x0a);
            } else if j < b {
                assert(all[j] == host[j - a - 2]);
            } else if j == b {
                assert(all[j + 2] == accept[0]);
            } else if j == b + 1 {
                assert(all[j] == 0x0a);
            } else if j < c {
                assert(all[j] == accept[j - b - 2]);
            } else if j == c {
                assert(all[j + 2] == close[0]);
            } else if j == c + 1 {
                assert(all[j] == 0x0a);
            } else {
                assert(all[j] == close[j - c - 2]);
            }
        }
    }
    bytes::lemma_first_index(all, end, n);
}

proof fn lemma_endpoint_is_visible(endpoint: Seq<u8>)
    requires
        authority::is_endpoint(endpoint),
    ensures
        is_visible(endpoint),
{
    assert forall|i: int| 0 <= i < endpoint.len() implies bytes::is_graphic(
        #[trigger] endpoint[i],
    ) by {
        assert(authority::is_endpoint_byte(endpoint[i]));
    }
}

proof fn lemma_query_is_visible(text: Seq<u8>)
    requires
        query::is_presigned_query(text),
    ensures
        is_visible(text),
{
    assert forall|i: int| 0 <= i < text.len() implies bytes::is_graphic(#[trigger] text[i]) by {
        assert(query::is_query_byte(text[i]));
    }
}

proof fn lemma_target_is_visible(path: Seq<u8>, query: Option<Seq<u8>>)
    requires
        is_visible(path),
        query matches Some(text) ==> is_visible(text),
    ensures
        is_visible(with_query(path, query)),
{
    reveal_strlit("?");
    is_ascii_chars_encode_utf8("?"@);
    if let Some(text) = query {
        let all = path + "?".spec_bytes() + text;
        assert forall|i: int| 0 <= i < all.len() implies bytes::is_graphic(#[trigger] all[i]) by {
            if i < path.len() {
                assert(bytes::is_graphic(path[i]));
            } else if i > path.len() {
                assert(bytes::is_graphic(text[i - path.len() - 1]));
            }
        }
    }
}

/// Nothing can be injected into a request for an object: whatever the inputs,
/// a request that is built has exactly the four intended header lines and no
/// body, and names exactly the method, the target and the authority that it was
/// built for. The presigned authority changes the `Host` line only.
pub proof fn law_object_requests_are_exact(
    method: Seq<u8>,
    endpoint: Seq<u8>,
    bucket: Seq<u8>,
    key: Seq<u8>,
    query: Option<Seq<u8>>,
    authority: Option<Seq<u8>>,
    max: Option<int>,
)
    requires
        is_visible(method),
        object_request(method, endpoint, bucket, key, query, authority, max) is Ok,
    ensures
        is_exactly(
            object_request(method, endpoint, bucket, key, query, authority, max)->Ok_0,
            method,
            with_query(uri::object_uri(bucket, key), query),
            named_authority(endpoint, authority),
        ),
{
    uri::lemma_object_uri_is_visible(bucket, key);
    lemma_endpoint_is_visible(endpoint);
    if let Some(text) = query {
        lemma_query_is_visible(text);
    }
    if let Some(text) = authority {
        authority::lemma_authority_is_graphic(text);
    }
    let target = with_query(uri::object_uri(bucket, key), query);
    lemma_target_is_visible(uri::object_uri(bucket, key), query);
    lemma_message_is_exact(method, target, named_authority(endpoint, authority));
}

/// Nothing can be injected into a request for a listing either, and its query
/// asks for exactly the options that it was built for.
pub proof fn law_list_requests_are_exact(
    endpoint: Seq<u8>,
    bucket: Seq<u8>,
    prefix: Seq<u8>,
    max_keys: u32,
    token: Option<Seq<u8>>,
    query: Option<Seq<u8>>,
    authority: Option<Seq<u8>>,
)
    requires
        list_request(endpoint, bucket, prefix, max_keys, token, query, authority) is Ok,
    ensures
        ({
            let sent = match query {
                Some(text) => text,
                None => query::query_text(prefix, max_keys, token),
            };
            &&& query::is_query_for(sent, prefix, max_keys, token)
            &&& is_exactly(
                list_request(endpoint, bucket, prefix, max_keys, token, query, authority)->Ok_0,
                "GET".spec_bytes(),
                with_query(uri::list_uri(bucket)->Ok_0, Some(sent)),
                named_authority(endpoint, authority),
            )
        }),
{
    reveal_strlit("GET");
    is_ascii_chars_encode_utf8("GET"@);
    let path = uri::list_uri(bucket)->Ok_0;
    let sent = match query {
        Some(text) => text,
        None => query::query_text(prefix, max_keys, token),
    };
    uri::lemma_object_uri_is_visible(bucket, Seq::empty());
    assert(path =~= uri::object_uri(bucket, Seq::empty()));
    lemma_endpoint_is_visible(endpoint);
    if let Some(text) = authority {
        authority::lemma_authority_is_graphic(text);
    }
    query::law_list_queries_are_canonical(prefix, max_keys, token);
    query::law_own_queries_match(prefix, max_keys, token);
    lemma_query_is_visible(sent);
    lemma_target_is_visible(path, Some(sent));
    lemma_message_is_exact(
        "GET".spec_bytes(),
        with_query(path, Some(sent)),
        named_authority(endpoint, authority),
    );
}

/// A request as it is sent: its first line, three header lines, and nothing else.
pub open spec fn written_request(method: Seq<u8>, target: Seq<u8>, host: Seq<u8>) -> Seq<u8> {
    method + seq![0x20u8] + target + " HTTP/1.1\r\nHost: ".spec_bytes() + host
        + "\r\nAccept-Encoding: identity\r\nConnection: close\r\n\r\n".spec_bytes()
}

proof fn lemma_written_request(method: Seq<u8>, target: Seq<u8>, host: Seq<u8>)
    ensures
        message(method, target, host) == written_request(method, target, host),
{
    reveal_strlit(" ");
    is_ascii_chars_encode_utf8(" "@);
    reveal_strlit(" HTTP/1.1");
    is_ascii_chars_encode_utf8(" HTTP/1.1"@);
    reveal_strlit("Host: ");
    is_ascii_chars_encode_utf8("Host: "@);
    reveal_strlit("Accept-Encoding: identity");
    is_ascii_chars_encode_utf8("Accept-Encoding: identity"@);
    reveal_strlit("Connection: close");
    is_ascii_chars_encode_utf8("Connection: close"@);
    reveal_strlit(" HTTP/1.1\r\nHost: ");
    is_ascii_chars_encode_utf8(" HTTP/1.1\r\nHost: "@);
    reveal_strlit("\r\nAccept-Encoding: identity\r\nConnection: close\r\n\r\n");
    is_ascii_chars_encode_utf8(
        "\r\nAccept-Encoding: identity\r\nConnection: close\r\n\r\n"@,
    );
    let crlf = bytes::crlf();
    let a = " HTTP/1.1".spec_bytes() + crlf + "Host: ".spec_bytes();
    let b = crlf + "Accept-Encoding: identity".spec_bytes() + crlf
        + "Connection: close".spec_bytes() + crlf + crlf;
    assert(a =~= " HTTP/1.1\r\nHost: ".spec_bytes());
    assert(b =~= "\r\nAccept-Encoding: identity\r\nConnection: close\r\n\r\n".spec_bytes());
    assert(seq![0x20u8] =~= " ".spec_bytes());
    assert(message(method, target, host) =~= method + " ".spec_bytes() + target + a + host + b);
}

/// Whatever is valid in its parts is requested, and nothing else: an endpoint, a
/// query that can be sent or none, with such a query an authority or none, and an
/// object with a URI. The query stands behind the URI and a question mark, and
/// the host is the authority, or else the endpoint.
pub proof fn law_objects_are_requested_by_their_parts(
    method: Seq<u8>,
    endpoint: Seq<u8>,
    bucket: Seq<u8>,
    key: Seq<u8>,
    query: Option<Seq<u8>>,
    authority: Option<Seq<u8>>,
    max: Option<int>,
    request: Seq<u8>,
)
    requires
        max matches Some(limit) ==> 0 <= limit,
    ensures
        object_request(method, endpoint, bucket, key, query, authority, max) == Ok::<
            Seq<u8>,
            HttpError,
        >(request) <==> {
            &&& authority::is_endpoint(endpoint)
            &&& query matches Some(text) ==> query::is_sendable(text)
            &&& authority matches Some(text) ==> authority::is_authority(text) && query is Some
            &&& uri::list_uri(bucket) is Ok
            &&& 1 <= key.len() <= 1024
            &&& max matches Some(limit) ==> 1 <= limit <= 16_777_216
            &&& request == written_request(
                method,
                uri::list_uri(bucket)->Ok_0 + uri::encoded_key(key) + (match query {
                    Some(text) => seq![0x3fu8] + text,
                    None => Seq::empty(),
                }),
                match authority {
                    Some(text) => text,
                    None => endpoint,
                },
            )
        },
{
    reveal_strlit("?");
    is_ascii_chars_encode_utf8("?"@);
    let limit = match max {
        Some(limit) => limit,
        None => 0,
    };
    uri::law_every_object_has_a_uri(bucket, key, limit);
    let path = uri::list_uri(bucket)->Ok_0 + uri::encoded_key(key);
    let host = match authority {
        Some(text) => text,
        None => endpoint,
    };
    if let Some(text) = query {
        query::law_sendable_queries_are_admitted(text);
        assert(with_query(path, query) =~= path + (seq![0x3fu8] + text));
    } else {
        assert(path + Seq::<u8>::empty() =~= path);
    }
    lemma_written_request(method, with_query(path, query), host);
}

/// Whatever page is valid in its parts is requested, and nothing else: an
/// endpoint, a bucket and a page that have a URI and a query, and a query with an
/// authority or neither, where the query asks for that page.
pub proof fn law_pages_are_requested_by_their_parts(
    endpoint: Seq<u8>,
    bucket: Seq<u8>,
    prefix: Seq<u8>,
    max_keys: u32,
    token: Option<Seq<u8>>,
    query: Option<Seq<u8>>,
    authority: Option<Seq<u8>>,
    request: Seq<u8>,
)
    ensures
        list_request(endpoint, bucket, prefix, max_keys, token, query, authority) == Ok::<
            Seq<u8>,
            HttpError,
        >(request) <==> {
            &&& authority::is_endpoint(endpoint)
            &&& uri::list_uri(bucket) is Ok
            &&& query::list_query(prefix, max_keys, token) is Ok
            &&& query is Some <==> authority is Some
            &&& query matches Some(text) ==> query::is_query_for(text, prefix, max_keys, token)
            &&& authority matches Some(text) ==> authority::is_authority(text)
            &&& request == written_request(
                seq![0x47u8, 0x45u8, 0x54u8],
                uri::list_uri(bucket)->Ok_0 + seq![0x3fu8] + (match query {
                    Some(text) => text,
                    None => query::list_query(prefix, max_keys, token)->Ok_0,
                }),
                match authority {
                    Some(text) => text,
                    None => endpoint,
                },
            )
        },
{
    reveal_strlit("?");
    is_ascii_chars_encode_utf8("?"@);
    reveal_strlit("GET");
    is_ascii_chars_encode_utf8("GET"@);
    assert("GET".spec_bytes() =~= seq![0x47u8, 0x45u8, 0x54u8]);
    assert("?".spec_bytes() =~= seq![0x3fu8]);
    let path = uri::list_uri(bucket)->Ok_0;
    let text = match query {
        Some(text) => text,
        None => query::list_query(prefix, max_keys, token)->Ok_0,
    };
    let host = match authority {
        Some(text) => text,
        None => endpoint,
    };
    lemma_written_request(
        "GET".spec_bytes(),
        with_query(path, Some(text)),
        host,
    );
}

} // verus!
