//! Reading and decoding responses.

use crate::bytes;
use crate::chunked;
use crate::chunked::ChunkedProgress;
use crate::error;
use crate::error::{HttpError, HttpErrorKind};
use crate::header;
use crate::header::{ResponseHeaders, MAX_HEADER_BYTES};
use crate::number;
use crate::text;
use vstd::prelude::*;
use vstd::slice::slice_to_vec;
use vstd::string::*;
use vstd::utf8::*;

verus! {

pub const MAX_S3_ERROR_BODY_BYTES: usize = 32 * 1024;

/// How long a body may be: an object's own limit with status 200, a fixed
/// limit for an error that a signed request reads, and no body otherwise.
pub open spec fn body_limit(status: u16, object_limit: int, read_s3_error: bool) -> Result<
    int,
    HttpError,
> {
    if status == 200 {
        Ok(object_limit)
    } else if read_s3_error && 400 <= status <= 499 {
        Ok(MAX_S3_ERROR_BODY_BYTES as int)
    } else {
        Err(header::error_of_status(status)->0)
    }
}

pub fn response_body_limit(status: u16, object_limit: usize, read_s3_error: bool) -> (result:
    Result<usize, HttpError>)
    ensures
        match body_limit(status, object_limit as int, read_s3_error) {
            Ok(limit) => result == Ok::<usize, HttpError>(limit as usize) && 0 <= limit
                <= usize::MAX,
            Err(error) => result == Err::<usize, HttpError>(error),
        },
{
    if status == 200 {
        return Ok(object_limit);
    }
    if read_s3_error && 400 <= status && status <= 499 {
        return Ok(MAX_S3_ERROR_BODY_BYTES);
    }
    match header::status_error(status) {
        Some(error) => Err(error),
        None => Ok(object_limit),
    }
}

pub open spec fn oversized_header() -> HttpError {
    HttpError::new(HttpErrorKind::Limit, "S3 response header exceeds the byte limit")
}

/// The header of a response whose body is read, and the limit of that body.
pub open spec fn readable(raw: Seq<u8>, end: int, max: int, read_s3_error: bool) -> Result<
    (header::HeaderModel, int),
    HttpError,
> {
    match header::header_of(raw, end) {
        Err(error) => Err(error),
        Ok(head) => if !header::is_identity_encoded(head) {
            Err(header::compressed_error())
        } else {
            match body_limit(head.status, max, read_s3_error) {
                Err(error) => Err(error),
                Ok(limit) => if head.content_length matches Some(length) && length > limit {
                    Err(chunked::over_limit())
                } else {
                    Ok((head, limit))
                },
            }
        },
    }
}

/// Parses the header and settles the limit of the body.
fn readable_headers(raw: &[u8], end: usize, max_bytes: usize, read_s3_error: bool) -> (result:
    Result<(ResponseHeaders, usize), HttpError>)
    requires
        2 <= end <= raw@.len(),
    ensures
        match readable(raw@, end as int, max_bytes as int, read_s3_error) {
            Ok((head, limit)) => result matches Ok(r) && r.0@ == head && r.1 == limit,
            Err(error) => result matches Err(e) && e == error,
        },
{
    let headers = header::parse_headers(raw, end)?;
    header::validate_get_content_encoding(&headers)?;
    let limit: usize = response_body_limit(headers.status, max_bytes, read_s3_error)?;
    if let Some(length) = headers.content_length {
        if length > limit as u64 {
            return Err(
                HttpError::new(HttpErrorKind::Limit, "S3 object exceeds the requested byte limit"),
            );
        }
    }
    Ok((headers, limit))
}

/// How many bytes to read next of a response of which `raw` has arrived, or
/// none where it is complete.
pub open spec fn next_read(raw: Seq<u8>, max: int, read_s3_error: bool) -> Result<
    Option<int>,
    HttpError,
> {
    match bytes::first_index(raw, bytes::header_terminator()) {
        None => if raw.len() >= MAX_HEADER_BYTES {
            Err(oversized_header())
        } else {
            Ok(Some(MAX_HEADER_BYTES - raw.len()))
        },
        Some(offset) => {
            let end = offset + 4;
            if end > MAX_HEADER_BYTES {
                Err(oversized_header())
            } else {
                match readable(raw, end, max, read_s3_error) {
                    Err(error) => Err(error),
                    Ok((head, limit)) => if head.chunked {
                        match chunked::progress(bytes::after(raw, end), 0, 0, 0, limit) {
                            Err(error) => Err(error),
                            Ok(ChunkedProgress::Complete) => Ok(None),
                            Ok(ChunkedProgress::Need(count)) => Ok(Some(count as int)),
                        }
                    } else if let Some(length) = head.content_length {
                        if end + length > usize::MAX {
                            Err(
                                HttpError::new(
                                    HttpErrorKind::Limit,
                                    "S3 response byte count overflowed",
                                ),
                            )
                        } else if raw.len() < end + length {
                            Ok(Some(end + length - raw.len()))
                        } else {
                            Ok(None)
                        }
                    } else if raw.len() - end > limit {
                        Err(chunked::over_limit())
                    } else {
                        Ok(Some(limit - (raw.len() - end) + 1))
                    },
                }
            }
        },
    }
}

/// Whether what is to be read next can be told in a machine integer. Only a
/// response without framing under the greatest of all limits fails this.
pub open spec fn is_representable(next: Result<Option<int>, HttpError>) -> bool {
    next matches Ok(Some(count)) ==> count <= usize::MAX
}

/// Whether an executable answer is the one that the model gives.
pub open spec fn reads(
    result: Result<Option<usize>, HttpError>,
    next: Result<Option<int>, HttpError>,
) -> bool {
    match next {
        Err(error) => result == Err::<Option<usize>, HttpError>(error),
        Ok(None) => result == Ok::<Option<usize>, HttpError>(None),
        Ok(Some(count)) => result == Ok::<Option<usize>, HttpError>(Some(count as usize)) && 0 < count
            <= usize::MAX,
    }
}

fn next_read_size_impl(raw: &[u8], max_bytes: usize, read_s3_error: bool) -> (result: Result<
    Option<usize>,
    HttpError,
>)
    requires
        max_bytes < usize::MAX || is_representable(
            next_read(raw@, max_bytes as int, read_s3_error),
        ),
    ensures
        reads(result, next_read(raw@, max_bytes as int, read_s3_error)),
{
    let end: usize = match bytes::find(raw, bytes::header_terminator_bytes()) {
        Some(offset) => offset + 4,
        None => {
            if raw.len() >= MAX_HEADER_BYTES {
                return Err(
                    HttpError::new(
                        HttpErrorKind::Limit,
                        "S3 response header exceeds the byte limit",
                    ),
                );
            }
            return Ok(Some(MAX_HEADER_BYTES - raw.len()));
        },
    };
    if end > MAX_HEADER_BYTES {
        return Err(
            HttpError::new(HttpErrorKind::Limit, "S3 response header exceeds the byte limit"),
        );
    }
    let (headers, limit) = readable_headers(raw, end, max_bytes, read_s3_error)?;
    if headers.chunked {
        let body = &raw[end..raw.len()];
        proof {
            chunked::lemma_need_is_positive(body@, 0, 0, 0, limit as int);
        }
        return match chunked::chunked_progress(body, limit)? {
            ChunkedProgress::Complete => Ok(None),
            ChunkedProgress::Need(count) => Ok(Some(count)),
        };
    }
    if let Some(length) = headers.content_length {
        let length: usize = length as usize;
        let expected: usize = match end.checked_add(length) {
            Some(expected) => expected,
            None => {
                return Err(
                    HttpError::new(HttpErrorKind::Limit, "S3 response byte count overflowed"),
                );
            },
        };
        return if raw.len() < expected {
            Ok(Some(expected - raw.len()))
        } else {
            Ok(None)
        };
    }
    let body_bytes: usize = raw.len() - end;
    if body_bytes > limit {
        return Err(
            HttpError::new(HttpErrorKind::Limit, "S3 object exceeds the requested byte limit"),
        );
    }
    Ok(Some(limit - body_bytes + 1))
}

/// Returns the largest useful next read for the response received so far.
///
/// Framed responses ask only for bytes that their framing proves remain: with a
/// length for exactly those that are missing, and in chunks for the rest of the
/// chunk at hand, or for the fewest bytes that can follow an incomplete size
/// line.
pub fn next_read_size(raw: &[u8], max_bytes: usize) -> (result: Result<Option<usize>, HttpError>)
    requires
        max_bytes < usize::MAX || is_representable(next_read(raw@, max_bytes as int, false)),
    ensures
        reads(result, next_read(raw@, max_bytes as int, false)),
{
    next_read_size_impl(raw, max_bytes, false)
}

/// Returns the next bounded read for a host-signed response.
///
/// This also reads the bounded body of a 4xx response, so that clock-skew
/// codes can be told apart without the body being exposed.
pub fn next_signed_read_size(raw: &[u8], max_bytes: usize) -> (result: Result<
    Option<usize>,
    HttpError,
>)
    requires
        max_bytes < usize::MAX || is_representable(next_read(raw@, max_bytes as int, true)),
    ensures
        reads(result, next_read(raw@, max_bytes as int, true)),
{
    next_read_size_impl(raw, max_bytes, true)
}

/// The text behind an XML declaration, where there is one, and behind the
/// white space after it; none where the declaration does not end.
pub open spec fn behind_declaration(s: Seq<u8>) -> Option<Seq<u8>> {
    match bytes::stripped(s, "<?xml".spec_bytes()) {
        None => Some(s),
        Some(rest) => match bytes::first_index(rest, "?>".spec_bytes()) {
            None => None,
            Some(i) => Some(text::trim_space_start(bytes::after(rest, i + 2))),
        },
    }
}

/// The code with which S3 says that a request's signing time was refused. The
/// body must be text that, up to white space, begins with an optional XML
/// declaration, `<Error>`, `<Code>`, one of the two codes and `</Code>`.
pub open spec fn clock_skew_code(body: Seq<u8>) -> Option<Seq<u8>> {
    if !valid_utf8(body) {
        None
    } else {
        match behind_declaration(text::trim_space_start(body)) {
            None => None,
            Some(document) => match bytes::stripped(document, "<Error>".spec_bytes()) {
                None => None,
                Some(error) => match bytes::stripped(
                    text::trim_space_start(error),
                    "<Code>".spec_bytes(),
                ) {
                    None => None,
                    Some(rest) => match bytes::first_index(rest, "</Code>".spec_bytes()) {
                        None => None,
                        Some(i) => {
                            let code = bytes::before(rest, i);
                            if code == "RequestTimeTooSkewed".spec_bytes() || code
                                == "RequestExpired".spec_bytes() {
                                Some(code)
                            } else {
                                None
                            }
                        },
                    },
                },
            },
        }
    }
}

/// Finds the code with which S3 says that a signing time was refused.
pub fn structured_s3_clock_skew_code(body: &[u8]) -> (result: Option<&'static str>)
    ensures
        match result {
            Some(code) => clock_skew_code(body@) == Some(code.spec_bytes()),
            None => clock_skew_code(body@) is None,
        },
{
    if text::utf8_text(body).is_none() {
        return None;
    }
    proof {
        reveal_strlit("<?xml");
        is_ascii_chars_encode_utf8("<?xml"@);
        reveal_strlit("?>");
        is_ascii_chars_encode_utf8("?>"@);
        reveal_strlit("<Error>");
        is_ascii_chars_encode_utf8("<Error>"@);
    }
    let trimmed = text::trim_start(body);
    let document = match bytes::strip_prefix(trimmed, "<?xml".as_bytes()) {
        None => trimmed,
        Some(rest) => {
            proof {
                text::lemma_cut_behind_prefix(trimmed@, "<?xml".spec_bytes(), 0);
            }
            match bytes::find(rest, "?>".as_bytes()) {
                None => {
                    return None;
                },
                Some(i) => {
                    proof {
                        text::lemma_cut_behind_prefix(rest@, "?>".spec_bytes(), i as int);
                    }
                    text::trim_start(&rest[i + 2..rest.len()])
                },
            }
        },
    };
    let error = match bytes::strip_prefix(document, "<Error>".as_bytes()) {
        None => {
            return None;
        },
        Some(error) => error,
    };
    proof {
        text::lemma_cut_behind_prefix(document@, "<Error>".spec_bytes(), 0);
    }
    let rest = match bytes::strip_prefix(text::trim_start(error), "<Code>".as_bytes()) {
        None => {
            return None;
        },
        Some(rest) => rest,
    };
    match bytes::find(rest, "</Code>".as_bytes()) {
        None => None,
        Some(i) => {
            let code = &rest[0..i];
            if bytes::equal(code, "RequestTimeTooSkewed".as_bytes()) {
                Some("RequestTimeTooSkewed")
            } else if bytes::equal(code, "RequestExpired".as_bytes()) {
                Some("RequestExpired")
            } else {
                None
            }
        },
    }
}

pub open spec fn no_framing() -> HttpError {
    HttpError::new(HttpErrorKind::Protocol, "S3 response has no exact body framing")
}

/// The body of a complete response: all that follows the header where its
/// length is right, or the decoded chunks. An object is taken from a framed
/// body only, since nothing else shows that it is whole.
pub open spec fn body_of(raw: Seq<u8>, end: int, head: header::HeaderModel, limit: int) -> Result<
    Seq<u8>,
    HttpError,
> {
    let body = bytes::after(raw, end);
    if head.chunked {
        chunked::decoded(body, 0, Seq::empty(), 0, limit)
    } else if head.content_length matches Some(length) && length != body.len() {
        Err(
            HttpError::new(
                HttpErrorKind::Protocol,
                "S3 response body does not match Content-Length",
            ),
        )
    } else if body.len() > limit {
        Err(chunked::over_limit())
    } else if head.content_length is None && head.status == 200 {
        Err(no_framing())
    } else {
        Ok(body)
    }
}

/// Whether a header says where the body ends, by a length or by chunks.
pub open spec fn has_framing(head: header::HeaderModel) -> bool {
    head.chunked || head.content_length is Some
}

/// What a complete response to a GET request is: the object's bytes with
/// status 200, and an error otherwise.
pub open spec fn object_of(raw: Seq<u8>, max: int, read_s3_error: bool) -> Result<
    Seq<u8>,
    HttpError,
> {
    match header::header_length(raw) {
        Err(error) => Err(error),
        Ok(end) => match readable(raw, end, max, read_s3_error) {
            Err(error) => Err(error),
            Ok((head, limit)) => match body_of(raw, end, head, limit) {
                Err(error) => Err(error),
                Ok(body) => if head.status == 200 {
                    Ok(body)
                } else if read_s3_error && clock_skew_code(body) is Some {
                    Err(
                        HttpError::with_status(
                            HttpErrorKind::ClockSkew,
                            head.status,
                            "S3 rejected the request signing time",
                        ),
                    )
                } else {
                    Err(header::error_of_status(head.status)->0)
                },
            },
        },
    }
}

fn decode_response_impl(raw: &[u8], max_bytes: usize, read_s3_error: bool) -> (result: Result<
    Vec<u8>,
    HttpError,
>)
    ensures
        error::agrees(result, object_of(raw@, max_bytes as int, read_s3_error)),
{
    let end: usize = header::header_end(raw)?;
    let (headers, limit) = readable_headers(raw, end, max_bytes, read_s3_error)?;
    let body = &raw[end..raw.len()];
    let decoded: Vec<u8> = if headers.chunked {
        chunked::decode_chunked(body, limit)?
    } else {
        if let Some(expected) = headers.content_length {
            if expected != body.len() as u64 {
                return Err(
                    HttpError::new(
                        HttpErrorKind::Protocol,
                        "S3 response body does not match Content-Length",
                    ),
                );
            }
        }
        if body.len() > limit {
            return Err(
                HttpError::new(HttpErrorKind::Limit, "S3 object exceeds the requested byte limit"),
            );
        }
        if headers.content_length.is_none() && headers.status == 200 {
            return Err(
                HttpError::new(HttpErrorKind::Protocol, "S3 response has no exact body framing"),
            );
        }
        slice_to_vec(body)
    };
    match header::status_error(headers.status) {
        None => Ok(decoded),
        Some(error) => {
            if read_s3_error && structured_s3_clock_skew_code(decoded.as_slice()).is_some() {
                Err(
                    HttpError::with_status(
                        HttpErrorKind::ClockSkew,
                        headers.status,
                        "S3 rejected the request signing time",
                    ),
                )
            } else {
                Err(error)
            }
        },
    }
}

/// Decodes the response to a GET request.
pub fn decode_response(raw: &[u8], max_bytes: usize) -> (result: Result<Vec<u8>, HttpError>)
    ensures
        error::agrees(result, object_of(raw@, max_bytes as int, false)),
{
    decode_response_impl(raw, max_bytes, false)
}

/// Decodes the response to a host-signed GET request, and classifies only
/// exact structured S3 clock-skew codes. The body of an error and all its
/// other fields are discarded.
pub fn decode_signed_response(raw: &[u8], max_bytes: usize) -> (result: Result<Vec<u8>, HttpError>)
    ensures
        error::agrees(result, object_of(raw@, max_bytes as int, true)),
{
    decode_response_impl(raw, max_bytes, true)
}

/// What a HEAD response says of an object.
#[derive(Clone, Debug, Eq, PartialEq)]
pub struct ObjectMetadata {
    pub content_length: Option<u64>,
    pub etag: Option<String>,
    pub last_modified: Option<String>,
}

/// The model of [`ObjectMetadata`], with texts as their UTF-8 bytes.
#[verifier::ext_equal]
pub struct MetadataModel {
    pub content_length: Option<u64>,
    pub etag: Option<Seq<u8>>,
    pub last_modified: Option<Seq<u8>>,
}

impl View for ObjectMetadata {
    type V = MetadataModel;

    open spec fn view(&self) -> MetadataModel {
        MetadataModel {
            content_length: self.content_length,
            etag: header::encoded(self.etag),
            last_modified: header::encoded(self.last_modified),
        }
    }
}

/// What a complete response to a HEAD request is: metadata with status 200,
/// and an error where there is a body, transfer framing or another status.
pub open spec fn metadata_of(raw: Seq<u8>) -> Result<MetadataModel, HttpError> {
    match header::header_length(raw) {
        Err(error) => Err(error),
        Ok(end) => match header::header_of(raw, end) {
            Err(error) => Err(error),
            Ok(head) => if raw.len() != end {
                Err(
                    HttpError::new(
                        HttpErrorKind::Protocol,
                        "S3 HEAD response unexpectedly contains body bytes",
                    ),
                )
            } else if head.chunked {
                Err(
                    HttpError::new(
                        HttpErrorKind::Protocol,
                        "S3 HEAD response uses transfer framing",
                    ),
                )
            } else if let Some(error) = header::error_of_status(head.status) {
                Err(error)
            } else {
                Ok(
                    MetadataModel {
                        content_length: head.content_length,
                        etag: head.etag,
                        last_modified: head.last_modified,
                    },
                )
            },
        },
    }
}

/// Decodes a successful HEAD response without reading or inventing a body.
///
/// Metadata texts are returned without the blanks around them, and exactly as
/// supplied otherwise. Missing values remain distinguishable.
pub fn decode_head_response(raw: &[u8]) -> (result: Result<ObjectMetadata, HttpError>)
    ensures
        error::agrees(result, metadata_of(raw@)),
{
    let end: usize = header::header_end(raw)?;
    let headers = header::parse_headers(raw, end)?;
    if raw.len() != end {
        return Err(
            HttpError::new(
                HttpErrorKind::Protocol,
                "S3 HEAD response unexpectedly contains body bytes",
            ),
        );
    }
    if headers.chunked {
        return Err(
            HttpError::new(HttpErrorKind::Protocol, "S3 HEAD response uses transfer framing"),
        );
    }
    if let Some(error) = header::status_error(headers.status) {
        return Err(error);
    }
    Ok(
        ObjectMetadata {
            content_length: headers.content_length,
            etag: headers.etag,
            last_modified: headers.last_modified,
        },
    )
}

/// How many bytes to read next of a HEAD response of which `raw` has arrived,
/// or none where its header is complete.
pub open spec fn next_head_read(raw: Seq<u8>) -> Result<Option<int>, HttpError> {
    if !bytes::contains(raw, bytes::header_terminator()) {
        if raw.len() >= MAX_HEADER_BYTES {
            Err(oversized_header())
        } else {
            Ok(Some(MAX_HEADER_BYTES - raw.len()))
        }
    } else {
        match metadata_of(raw) {
            Err(error) => Err(error),
            Ok(_) => Ok(None),
        }
    }
}

/// Returns the next bounded read needed for a HEAD response.
///
/// Once the complete header has arrived this returns `None`; it never asks
/// for a body. Body bytes that came along with the header are an error.
pub fn next_head_read_size(raw: &[u8]) -> (result: Result<Option<usize>, HttpError>)
    ensures
        reads(result, next_head_read(raw@)),
{
    proof {
        bytes::lemma_first_index_none(raw@, bytes::header_terminator());
    }
    match bytes::find(raw, bytes::header_terminator_bytes()) {
        Some(_offset) => match decode_head_response(raw) {
            Ok(_metadata) => Ok(None),
            Err(error) => Err(error),
        },
        None => {
            if raw.len() >= MAX_HEADER_BYTES {
                return Err(
                    HttpError::new(
                        HttpErrorKind::Limit,
                        "S3 response header exceeds the byte limit",
                    ),
                );
            }
            Ok(Some(MAX_HEADER_BYTES - raw.len()))
        },
    }
}

/// Whether a response says where its body ends, by a length or by chunks. What
/// comes of any other response may have been cut short, so that it is never
/// accepted.
pub open spec fn is_framed(raw: Seq<u8>) -> bool {
    header::header_length(raw) matches Ok(end) && header::header_of(raw, end) matches Ok(head)
        && has_framing(head)
}

/// Only exact framing is accepted: an object comes with its length or in
/// chunks.
pub proof fn law_only_framed_responses_are_accepted(raw: Seq<u8>, max: int, read_s3_error: bool)
    ensures
        object_of(raw, max, read_s3_error) is Ok ==> is_framed(raw),
{
}

/// The prefix of a response that holds its header has the same header, and a
/// shorter one has none.
proof fn lemma_prefix_header(raw: Seq<u8>, end: int, k: int)
    requires
        header::header_length(raw) == Ok::<int, HttpError>(end),
        0 <= k <= raw.len(),
    ensures
        4 <= end <= raw.len(),
        end <= MAX_HEADER_BYTES,
        bytes::first_index(raw, bytes::header_terminator()) == Some(end - 4),
        k >= end ==> bytes::first_index(bytes::before(raw, k), bytes::header_terminator()) == Some(
            end - 4,
        ) && header::header_of(bytes::before(raw, k), end) == header::header_of(raw, end),
        k < end ==> bytes::first_index(bytes::before(raw, k), bytes::header_terminator()) is None,
{
    let mark = bytes::header_terminator();
    let prefix = bytes::before(raw, k);
    bytes::lemma_first_index_is_first(raw, mark);
    assert forall|j: int| bytes::occurs_at(prefix, mark, j) implies bytes::occurs_at(
        raw,
        mark,
        j,
    ) by {
        assert(prefix.subrange(j, j + 4) =~= raw.subrange(j, j + 4));
    }
    if k >= end {
        assert(prefix.subrange(end - 4, end) =~= raw.subrange(end - 4, end));
        bytes::lemma_first_index(prefix, mark, end - 4);
        assert(bytes::before(prefix, end - 2) =~= bytes::before(raw, end - 2));
    } else {
        bytes::lemma_first_index_none(prefix, mark);
    }
}

/// A short or truncated body is never taken for a complete one: no proper
/// prefix of a response that is accepted is accepted too, and what has come of
/// it asks for more. Before the header is complete it asks for what the header
/// may still take; behind it only for bytes that remain, and for all of them
/// where there is a length.
pub proof fn law_truncated_responses_are_refused(
    raw: Seq<u8>,
    max: int,
    read_s3_error: bool,
    k: int,
)
    requires
        object_of(raw, max, read_s3_error) is Ok,
        0 <= k < raw.len() <= usize::MAX,
    ensures
        object_of(bytes::before(raw, k), max, read_s3_error) is Err,
        next_read(bytes::before(raw, k), max, read_s3_error) matches Ok(Some(n)) && 0 < n && {
            let end = header::header_length(raw)->Ok_0;
            let head = header::header_of(raw, end)->Ok_0;
            if k < end {
                n == MAX_HEADER_BYTES - k
            } else if head.chunked {
                n <= raw.len() - k
            } else {
                n == raw.len() - k
            }
        },
{
    let prefix = bytes::before(raw, k);
    let end = header::header_length(raw)->Ok_0;
    lemma_prefix_header(raw, end, k);
    let (head, limit) = readable(raw, end, max, read_s3_error)->Ok_0;
    if k >= end {
        assert(readable(prefix, end, max, read_s3_error) == readable(raw, end, max, read_s3_error));
        let body = bytes::after(raw, end);
        assert(bytes::after(prefix, end) =~= bytes::before(body, k - end));
        if head.chunked {
            chunked::law_truncated_chunks_are_refused(body, limit, k - end);
        }
    }
}

/// Reading stops at the end of a response that is accepted.
pub proof fn law_accepted_responses_are_complete(raw: Seq<u8>, max: int, read_s3_error: bool)
    requires
        object_of(raw, max, read_s3_error) is Ok,
        raw.len() <= usize::MAX,
    ensures
        next_read(raw, max, read_s3_error) == Ok::<Option<int>, HttpError>(None),
{
    let end = header::header_length(raw)->Ok_0;
    lemma_prefix_header(raw, end, raw.len() as int);
    let (head, limit) = readable(raw, end, max, read_s3_error)->Ok_0;
    if head.chunked {
        chunked::law_complete_bodies_decode(bytes::after(raw, end), limit);
    }
}

/// A response without framing is never complete: as long as its body is within
/// its limit, it asks for one byte more than the limit leaves.
pub proof fn law_unframed_responses_are_probed(
    raw: Seq<u8>,
    end: int,
    max: int,
    read_s3_error: bool,
)
    requires
        header::header_length(raw) == Ok::<int, HttpError>(end),
        readable(raw, end, max, read_s3_error) matches Ok((head, limit)) && !has_framing(head)
            && raw.len() - end <= limit,
    ensures
        next_read(raw, max, read_s3_error) matches Ok(Some(n)) && (raw.len() - end) + n
            == readable(raw, end, max, read_s3_error)->Ok_0.1 + 1,
{
    lemma_prefix_header(raw, end, raw.len() as int);
}

/// An object that is returned came with status 200 and is at most as long as
/// was asked for; one with a length is exactly what follows the header.
pub proof fn law_objects_are_exact_and_bounded(raw: Seq<u8>, max: int, read_s3_error: bool)
    requires
        object_of(raw, max, read_s3_error) is Ok,
        0 <= max,
    ensures
        ({
            let end = header::header_length(raw)->Ok_0;
            let head = header::header_of(raw, end)->Ok_0;
            let object = object_of(raw, max, read_s3_error)->Ok_0;
            &&& header::header_length(raw) is Ok
            &&& header::header_of(raw, end) is Ok
            &&& head.status == 200
            &&& object.len() <= max
            &&& head.content_length matches Some(length) ==> object.len() == length
            &&& !head.chunked ==> object == bytes::after(raw, end)
        }),
{
    let end = header::header_length(raw)->Ok_0;
    let (head, limit) = readable(raw, end, max, read_s3_error)->Ok_0;
    if head.chunked {
        chunked::law_only_sent_chunks_decode(bytes::after(raw, end), limit);
        assert(head.content_length is None);
    }
}

/// Signed and plain requests read the same objects: they differ in how a
/// failure is reported only.
pub proof fn law_signed_objects_are_the_same(raw: Seq<u8>, max: int)
    ensures
        object_of(raw, max, true) is Ok <==> object_of(raw, max, false) is Ok,
        object_of(raw, max, true) is Ok ==> object_of(raw, max, true) == object_of(
            raw,
            max,
            false,
        ),
{
}

/// The body of a failed response never reaches the caller: it is reported by
/// its status alone, unless a signed request's body says that the signing time
/// was refused, and then that is all that is said of it.
pub proof fn law_failures_hide_the_body(raw: Seq<u8>, max: int, read_s3_error: bool)
    requires
        header::header_length(raw) matches Ok(end) && readable(raw, end, max, read_s3_error)
            matches Ok((head, limit)) && head.status != 200 && body_of(raw, end, head, limit) is Ok,
    ensures
        ({
            let end = header::header_length(raw)->Ok_0;
            let head = header::header_of(raw, end)->Ok_0;
            let skewed = read_s3_error && clock_skew_code(
                body_of(raw, end, head, MAX_S3_ERROR_BODY_BYTES as int)->Ok_0,
            ) is Some;
            object_of(raw, max, read_s3_error) == Err::<Seq<u8>, HttpError>(
                if skewed {
                    HttpError::with_status(
                        HttpErrorKind::ClockSkew,
                        head.status,
                        "S3 rejected the request signing time",
                    )
                } else {
                    header::error_of_status(head.status)->0
                },
            )
        }),
{
}

/// Metadata is read from a header with status 200 alone, of at most
/// [`MAX_HEADER_BYTES`] bytes, without transfer framing and without a body; it
/// is complete exactly when the header is, and until then what is missing of
/// the greatest header is asked for.
pub proof fn law_metadata_needs_only_the_header(raw: Seq<u8>, k: int)
    requires
        metadata_of(raw) is Ok,
        0 <= k < raw.len(),
    ensures
        header::header_length(raw) == Ok::<int, HttpError>(raw.len() as int),
        raw.len() <= MAX_HEADER_BYTES,
        header::header_of(raw, raw.len() as int) matches Ok(head) && head.status == 200
            && !head.chunked,
        next_head_read(raw) == Ok::<Option<int>, HttpError>(None),
        metadata_of(bytes::before(raw, k)) is Err,
        next_head_read(bytes::before(raw, k)) == Ok::<Option<int>, HttpError>(
            Some(MAX_HEADER_BYTES - k),
        ),
{
    let prefix = bytes::before(raw, k);
    lemma_prefix_header(raw, raw.len() as int, k);
    bytes::lemma_first_index_none(raw, bytes::header_terminator());
    bytes::lemma_first_index_none(prefix, bytes::header_terminator());
}

/// A HEAD response that names any transfer encoding is refused.
pub proof fn law_head_framing_is_refused(raw: Seq<u8>, end: int, i: int)
    requires
        header::header_length(raw) == Ok::<int, HttpError>(end),
        1 <= i < header::header_lines(raw, end).len(),
        header::line_name(header::header_lines(raw, end)[i]) matches Some(name)
            && bytes::equal_ignoring_case(name, "transfer-encoding".spec_bytes()),
    ensures
        metadata_of(raw) is Err,
{
    header::law_transfer_encodings_are_chunked(raw, end, i);
}

/// A HEAD response with a body is refused, whatever its header says.
pub proof fn law_head_bodies_are_refused(raw: Seq<u8>, extra: Seq<u8>)
    requires
        header::header_length(raw) == Ok::<int, HttpError>(raw.len() as int),
        extra.len() > 0,
    ensures
        metadata_of(raw + extra) is Err,
        next_head_read(raw + extra) is Err,
{
    let all = raw + extra;
    bytes::lemma_first_index_is_first(raw, bytes::header_terminator());
    let mark = bytes::header_terminator();
    let n = raw.len() as int;
    lemma_prefix_header(raw, n, n);
    assert(all.subrange(n - 4, n) =~= raw.subrange(n - 4, n));
    assert forall|j: int| 0 <= j < n - 4 implies !bytes::occurs_at(all, mark, j) by {
        assert(!bytes::occurs_at(raw, mark, j));
        assert(all.subrange(j, j + 4) =~= raw.subrange(j, j + 4));
    }
    bytes::lemma_first_index(all, mark, n - 4);
    bytes::lemma_first_index_none(all, mark);
}

/// What is asked for is never nothing.
pub proof fn lemma_next_read_is_positive(raw: Seq<u8>, max: int, read_s3_error: bool)
    requires
        0 <= max,
        raw.len() <= usize::MAX,
    ensures
        next_read(raw, max, read_s3_error) matches Ok(Some(n)) ==> n > 0,
{
    bytes::lemma_first_index_is_first(raw, bytes::header_terminator());
    if let Some(offset) = bytes::first_index(raw, bytes::header_terminator()) {
        let end = offset + 4;
        if let Ok((head, limit)) = readable(raw, end, max, read_s3_error) {
            chunked::lemma_need_is_positive(bytes::after(raw, end), 0, 0, 0, limit);
        }
    }
}

/// The header of a successful response with one header line.
pub open spec fn success_header(line: Seq<u8>) -> Seq<u8> {
    "HTTP/1.1 200 OK".spec_bytes() + bytes::crlf() + line + bytes::crlf() + bytes::crlf()
}

proof fn lemma_success_status()
    ensures
        header::status_of("HTTP/1.1 200 OK".spec_bytes()) == Ok::<u16, HttpError>(200u16),
        bytes::is_ascii("HTTP/1.1 200 OK".spec_bytes()),
        bytes::is_free_of("HTTP/1.1 200 OK".spec_bytes(), 0x0d),
        "HTTP/1.1 200 OK".spec_bytes().len() == 15,
{
    reveal_strlit("HTTP/1.1 200 OK");
    is_ascii_chars_encode_utf8("HTTP/1.1 200 OK"@);
    reveal_strlit("HTTP/1.1");
    is_ascii_chars_encode_utf8("HTTP/1.1"@);
    let line = "HTTP/1.1 200 OK".spec_bytes();
    let version = "HTTP/1.1".spec_bytes();
    let space = seq![' ' as u8];
    let code = seq!['2' as u8, '0' as u8, '0' as u8];
    let phrase = seq!['O' as u8, 'K' as u8];
    let rest = code + space + phrase;
    assert(line =~= version + space + rest);
    bytes::lemma_split_first(version, space, rest);
    assert(bytes::before(line, 8) =~= version);
    assert(bytes::after(line, 9) =~= rest);
    bytes::lemma_split_first(code, space, phrase);
    assert(bytes::before(rest, 3) =~= code);
    assert(code.drop_last() =~= seq!['2' as u8, '0' as u8]);
    assert(code.drop_last().drop_last() =~= seq!['2' as u8]);
    assert(code.drop_last().drop_last().drop_last() =~= Seq::<u8>::empty());
    assert(number::value(code.drop_last().drop_last().drop_last(), 10) == 0);
    assert(number::value(code.drop_last().drop_last(), 10) == 2);
    assert(number::value(code.drop_last(), 10) == 20);
    assert(number::value(code, 10) == 200);
    assert(number::parsed(code, 10, 599) == Some(200nat));
}

/// A successful response with one header line is read as that line says.
proof fn lemma_success_header(line: Seq<u8>, body: Seq<u8>)
    requires
        line.len() > 0,
        bytes::is_ascii(line),
        bytes::is_free_of(line, 0x0d),
        success_header(line).len() <= MAX_HEADER_BYTES,
    ensures
        ({
            let raw = success_header(line) + body;
            let end = success_header(line).len() as int;
            &&& header::header_length(raw) == Ok::<int, HttpError>(end)
            &&& bytes::after(raw, end) == body
            &&& header::header_of(raw, end) == (match header::with_line(
                header::no_fields(),
                line,
            ) {
                Ok(fields) => header::framed(200, fields),
                Err(error) => Err(error),
            })
        }),
{
    let crlf = bytes::crlf();
    let mark = bytes::header_terminator();
    let status = "HTTP/1.1 200 OK".spec_bytes();
    let head = success_header(line);
    let raw = head + body;
    let end = head.len() as int;
    let nothing = Seq::<u8>::empty();
    lemma_success_status();
    assert(raw.subrange(end - 4, end) =~= mark);
    assert forall|j: int| 0 <= j < end - 4 implies !bytes::occurs_at(raw, mark, j) by {
        if bytes::occurs_at(raw, mark, j) {
            assert(raw.subrange(j, j + 4)[0] == mark[0]);
            assert(raw.subrange(j, j + 4)[2] == mark[2]);
            assert(raw[j] == 0x0d && raw[j + 2] == 0x0d);
            if j < 15 {
                assert(raw[j] == status[j]);
            } else if j == 15 {
                assert(raw[j + 2] == line[0]);
            } else if j == 16 {
                assert(raw[j] == 0x0a);
            } else {
                assert(raw[j] == line[j - 17]);
            }
        }
    }
    bytes::lemma_first_index(raw, mark, end - 4);
    assert(bytes::after(raw, end) =~= body);
    let lines = bytes::before(raw, end - 2);
    bytes::lemma_split_none(nothing, crlf);
    bytes::lemma_split_first(line, crlf, nothing);
    bytes::lemma_split_first(status, crlf, line + crlf + nothing);
    assert(lines =~= status + crlf + (line + crlf + nothing));
    assert(bytes::is_ascii(lines)) by {
        assert forall|i: int| 0 <= i < lines.len() implies #[trigger] lines[i] < 0x80 by {
            if i < 15 {
                assert(status[i] < 0x80);
            } else if 17 <= i < 17 + line.len() {
                assert(line[i - 17] < 0x80);
            }
        }
    }
    let pieces = bytes::split_on(lines, crlf);
    assert(pieces =~= seq![status, line, nothing]);
    let rest = pieces.drop_first();
    assert(rest =~= seq![line, nothing]);
    assert(rest.drop_first() =~= seq![nothing]);
    assert(seq![nothing].drop_first() =~= Seq::<Seq<u8>>::empty());
    reveal_with_fuel(header::with_lines, 3);
}

/// The header line that gives a body's length.
pub open spec fn length_line(length: nat) -> Seq<u8> {
    "Content-Length: ".spec_bytes() + number::decimal(length)
}

proof fn lemma_length_line(length: nat)
    requires
        length <= u64::MAX,
    ensures
        header::with_line(header::no_fields(), length_line(length)) == Ok::<
            header::HeaderFields,
            HttpError,
        >(
            header::HeaderFields { content_length: Some(length as u64), ..header::no_fields() },
        ),
        bytes::is_ascii(length_line(length)),
        bytes::is_free_of(length_line(length), 0x0d),
        length_line(length).len() > 0,
        length_line(length).len() <= 16 + 20,
{
    reveal_strlit("Content-Length: ");
    is_ascii_chars_encode_utf8("Content-Length: "@);
    reveal_strlit("content-length");
    is_ascii_chars_encode_utf8("content-length"@);
    let digits = number::decimal(length);
    let line = length_line(length);
    let name = bytes::before(line, 14);
    let blank = seq![' ' as u8];
    let nothing = Seq::<u8>::empty();
    number::law_decimal_reads_back(length, u64::MAX as nat);
    number::lemma_decimal_length(length);
    assert forall|i: int| 0 <= i < digits.len() implies bytes::is_digit(#[trigger] digits[i]) by {
        assert(number::is_radix_digit(digits[i], 10));
    }
    assert(line =~= name + seq![':' as u8] + (blank + digits + nothing));
    assert(bytes::equal_ignoring_case(name, "content-length".spec_bytes()));
    header::law_values_are_exact(header::no_fields(), name, blank, digits, nothing);
    assert(number::unsigned(digits) == digits) by {
        assert(bytes::is_digit(digits[0]));
    }
    assert forall|i: int| 0 <= i < line.len() implies #[trigger] line[i] < 0x80 && line[i]
        != 0x0d by {
        if i < 16 {
            assert(line[i] == "Content-Length: ".spec_bytes()[i]);
        } else {
            assert(line[i] == digits[i - 16]);
            assert(bytes::is_digit(digits[i - 16]));
        }
    }
}

/// What was sent with its length is read back: a successful response with a
/// length and that many bytes gives exactly those bytes, where they are within
/// the limit.
pub proof fn law_fixed_responses_read_back(body: Seq<u8>, max: int, read_s3_error: bool)
    requires
        body.len() <= max <= usize::MAX,
    ensures
        object_of(success_header(length_line(body.len())) + body, max, read_s3_error) == Ok::<
            Seq<u8>,
            HttpError,
        >(body),
{
    lemma_length_line(body.len());
    lemma_success_status();
    lemma_success_header(length_line(body.len()), body);
}

proof fn lemma_chunked_line()
    ensures
        header::with_line(
            header::no_fields(),
            "Transfer-Encoding: chunked".spec_bytes(),
        ) == Ok::<header::HeaderFields, HttpError>(
            header::HeaderFields {
                transfer_encoding: Some("chunked".spec_bytes()),
                ..header::no_fields()
            },
        ),
        bytes::is_ascii("Transfer-Encoding: chunked".spec_bytes()),
        bytes::is_free_of("Transfer-Encoding: chunked".spec_bytes(), 0x0d),
        "Transfer-Encoding: chunked".spec_bytes().len() == 26,
        bytes::equal_ignoring_case("chunked".spec_bytes(), "chunked".spec_bytes()),
{
    reveal_strlit("Transfer-Encoding: chunked");
    is_ascii_chars_encode_utf8("Transfer-Encoding: chunked"@);
    reveal_strlit("transfer-encoding");
    is_ascii_chars_encode_utf8("transfer-encoding"@);
    reveal_strlit("content-length");
    is_ascii_chars_encode_utf8("content-length"@);
    reveal_strlit("chunked");
    is_ascii_chars_encode_utf8("chunked"@);
    let line = "Transfer-Encoding: chunked".spec_bytes();
    let name = bytes::before(line, 17);
    let blank = seq![' ' as u8];
    let value = "chunked".spec_bytes();
    let nothing = Seq::<u8>::empty();
    assert(line =~= name + seq![':' as u8] + (blank + value + nothing));
    assert(bytes::equal_ignoring_case(name, "transfer-encoding".spec_bytes()));
    assert(!bytes::equal_ignoring_case(name, "content-length".spec_bytes()));
    header::law_values_are_exact(header::no_fields(), name, blank, value, nothing);
}

/// What was sent in chunks is read back: a successful response in fewer than
/// [`chunked::MAX_CHUNKS`] chunks gives exactly their data, where it is within
/// the limit.
pub proof fn law_chunked_responses_read_back(
    chunks: Seq<chunked::Chunk>,
    last: Seq<u8>,
    max: int,
    read_s3_error: bool,
)
    requires
        chunked::are_chunks(chunks),
        chunked::size_of(last) == Some(0nat),
        chunks.len() < chunked::MAX_CHUNKS,
        chunked::payload(chunks).len() <= max <= usize::MAX,
        chunked::sent(chunks, last).len() <= usize::MAX,
    ensures
        object_of(
            success_header("Transfer-Encoding: chunked".spec_bytes()) + chunked::sent(chunks, last),
            max,
            read_s3_error,
        ) == Ok::<Seq<u8>, HttpError>(chunked::payload(chunks)),
{
    lemma_chunked_line();
    lemma_success_status();
    lemma_success_header(
        "Transfer-Encoding: chunked".spec_bytes(),
        chunked::sent(chunks, last),
    );
    chunked::law_sent_chunks_read_back(chunks, last, max);
}

/// What has come of a response that is framed and can be read to its end asks
/// for the rest, whatever its status; the whole asks for nothing.
pub proof fn lemma_reading_goes_on(raw: Seq<u8>, end: int, max: int, read_s3_error: bool, k: int)
    requires
        header::header_length(raw) == Ok::<int, HttpError>(end),
        readable(raw, end, max, read_s3_error) matches Ok((head, limit)) && has_framing(head)
            && body_of(raw, end, head, limit) is Ok,
        0 <= k <= raw.len() <= usize::MAX,
    ensures
        k == raw.len() ==> next_read(bytes::before(raw, k), max, read_s3_error) == Ok::<
            Option<int>,
            HttpError,
        >(None),
        k < raw.len() ==> (next_read(bytes::before(raw, k), max, read_s3_error) matches Ok(Some(n))
            && {
            let head = header::header_of(raw, end)->Ok_0;
            if k < end {
                n == MAX_HEADER_BYTES - k
            } else if head.chunked {
                0 < n <= raw.len() - k
            } else {
                n == raw.len() - k
            }
        }),
{
    let prefix = bytes::before(raw, k);
    lemma_prefix_header(raw, end, k);
    let (head, limit) = readable(raw, end, max, read_s3_error)->Ok_0;
    let body = bytes::after(raw, end);
    if k == raw.len() {
        assert(prefix =~= raw);
        if head.chunked {
            chunked::law_complete_bodies_decode(body, limit);
        }
    } else if k >= end {
        assert(readable(prefix, end, max, read_s3_error) == readable(raw, end, max, read_s3_error));
        assert(bytes::after(prefix, end) =~= bytes::before(body, k - end));
        if head.chunked {
            chunked::law_truncated_chunks_are_refused(body, limit, k - end);
        }
    }
}

/// An error document: white space, perhaps a declaration and white space behind
/// it, the start of the error, white space, the code, and anything.
pub struct ErrorDocument {
    pub leading: Seq<char>,
    pub declaration: Option<(Seq<char>, Seq<char>)>,
    pub inner: Seq<char>,
    pub code: Seq<char>,
    pub rest: Seq<char>,
}

/// How an error document is written.
pub open spec fn written_error(document: ErrorDocument) -> Seq<char> {
    document.leading + match document.declaration {
        Some((declared, gap)) => "<?xml"@ + declared + "?>"@ + gap,
        None => Seq::empty(),
    } + "<Error>"@ + document.inner + "<Code>"@ + document.code + "</Code>"@ + document.rest
}

/// Whether an error document is well formed: what stands between its marks is
/// white space, and its declaration and its code end where they first can.
pub open spec fn is_error_document(document: ErrorDocument) -> bool {
    &&& text::is_white_text(document.leading)
    &&& text::is_white_text(document.inner)
    &&& document.declaration matches Some((declared, gap)) ==> text::is_white_text(gap)
        && !bytes::contains(encode_utf8(declared), "?>".spec_bytes())
    &&& !bytes::contains(encode_utf8(document.code), "</Code>".spec_bytes())
}

/// The first end of what holds none is its own.
proof fn lemma_first_end(s: Seq<u8>, mark: Seq<u8>, rest: Seq<u8>)
    requires
        mark.len() > 0,
        !bytes::contains(s, mark),
        forall|k: int| 0 < k < mark.len() ==> #[trigger] mark[k] != mark[0],
    ensures
        bytes::first_index(s + mark + rest, mark) == Some(s.len() as int),
        bytes::before(s + mark + rest, s.len() as int) == s,
        bytes::after(s + mark + rest, (s.len() + mark.len()) as int) == rest,
{
    let all = s + mark + rest;
    let n = s.len() as int;
    let m = mark.len() as int;
    assert(all.subrange(n, n + m) =~= mark);
    assert forall|j: int| 0 <= j < n implies !bytes::occurs_at(all, mark, j) by {
        if bytes::occurs_at(all, mark, j) {
            if j + m <= n {
                assert(s.subrange(j, j + m) =~= all.subrange(j, j + m));
                assert(bytes::occurs_at(s, mark, j));
            } else {
                assert(all.subrange(j, j + m)[n - j] == mark[n - j]);
                assert(all[n] == mark[0]);
            }
        }
    }
    bytes::lemma_first_index(all, mark, n);
    assert(bytes::before(all, n) =~= s);
    assert(bytes::after(all, n + m) =~= rest);
}

proof fn lemma_stripped(prefix: Seq<u8>, rest: Seq<u8>)
    ensures
        bytes::stripped(prefix + rest, prefix) == Some(rest),
{
    let all = prefix + rest;
    assert(all.subrange(0, prefix.len() as int) =~= prefix);
    assert(bytes::after(all, prefix.len() as int) =~= rest);
}

/// What stands behind the start of an error.
proof fn lemma_error_content(document: ErrorDocument)
    requires
        is_error_document(document),
    ensures
        ({
            let content = document.inner + "<Code>"@ + document.code + "</Code>"@ + document.rest;
            let trimmed = text::trim_space_start(encode_utf8(content));
            &&& bytes::stripped(trimmed, "<Code>".spec_bytes()) matches Some(rest)
            &&& bytes::first_index(rest, "</Code>".spec_bytes()) matches Some(i)
            &&& bytes::before(rest, i) == encode_utf8(document.code)
        }),
{
    reveal_strlit("<Code>");
    is_ascii_chars_encode_utf8("<Code>"@);
    reveal_strlit("</Code>");
    is_ascii_chars_encode_utf8("</Code>"@);
    let tail = document.code + "</Code>"@ + document.rest;
    let content = document.inner + "<Code>"@ + document.code + "</Code>"@ + document.rest;
    let opened = "<Code>"@ + tail;
    assert(content =~= document.inner + opened);
    text::law_white_space_is_trimmed(document.inner, opened);
    text::lemma_encoded_concat("<Code>"@, tail);
    lemma_stripped("<Code>".spec_bytes(), encode_utf8(tail));
    text::lemma_encoded_concat(document.code + "</Code>"@, document.rest);
    text::lemma_encoded_concat(document.code, "</Code>"@);
    lemma_first_end(
        encode_utf8(document.code),
        "</Code>".spec_bytes(),
        encode_utf8(document.rest),
    );
}

/// An error document says that the signing time was refused exactly where its
/// code is one of the two that mean so, whatever stands behind the code.
pub proof fn law_error_documents_tell_clock_skew(document: ErrorDocument)
    requires
        is_error_document(document),
    ensures
        clock_skew_code(encode_utf8(written_error(document))) is Some <==> document.code
            == "RequestTimeTooSkewed"@ || document.code == "RequestExpired"@,
{
    reveal_strlit("<?xml");
    is_ascii_chars_encode_utf8("<?xml"@);
    reveal_strlit("?>");
    is_ascii_chars_encode_utf8("?>"@);
    reveal_strlit("<Error>");
    is_ascii_chars_encode_utf8("<Error>"@);
    let all = written_error(document);
    let content = document.inner + "<Code>"@ + document.code + "</Code>"@ + document.rest;
    let opened = "<Error>"@ + content;
    encode_utf8_valid_utf8(all);
    text::lemma_encoded_concat("<Error>"@, content);
    lemma_stripped("<Error>".spec_bytes(), encode_utf8(content));
    lemma_error_content(document);
    match document.declaration {
        None => {
            assert(all =~= document.leading + opened);
            text::law_white_space_is_trimmed(document.leading, opened);
            let trimmed = encode_utf8(opened);
            if bytes::starts_with(trimmed, "<?xml".spec_bytes()) {
                assert(trimmed.subrange(0, 5)[1] == "<?xml".spec_bytes()[1]);
                assert(trimmed[1] == "<Error>".spec_bytes()[1]);
            }
        },
        Some((declared, gap)) => {
            let behind = gap + opened;
            let tail = declared + "?>"@ + behind;
            assert(all =~= document.leading + ("<?xml"@ + tail));
            text::law_white_space_is_trimmed(document.leading, "<?xml"@ + tail);
            text::lemma_encoded_concat("<?xml"@, tail);
            lemma_stripped("<?xml".spec_bytes(), encode_utf8(tail));
            text::lemma_encoded_concat(declared + "?>"@, behind);
            text::lemma_encoded_concat(declared, "?>"@);
            lemma_first_end(encode_utf8(declared), "?>".spec_bytes(), encode_utf8(behind));
            text::law_white_space_is_trimmed(gap, opened);
        },
    }
    if encode_utf8(document.code) == "RequestTimeTooSkewed".spec_bytes() {
        text::law_texts_are_determined_by_their_bytes(document.code, "RequestTimeTooSkewed"@);
    }
    if encode_utf8(document.code) == "RequestExpired".spec_bytes() {
        text::law_texts_are_determined_by_their_bytes(document.code, "RequestExpired"@);
    }
}

/// A text that begins with ASCII characters, and what follows them.
proof fn lemma_begins(s: Seq<u8>, prefix: Seq<u8>)
    requires
        valid_utf8(s),
        bytes::is_ascii(prefix),
        bytes::stripped(s, prefix) is Some,
    ensures
        s == prefix + bytes::stripped(s, prefix)->0,
        valid_utf8(bytes::stripped(s, prefix)->0),
{
    let n = prefix.len() as int;
    assert(s =~= prefix + bytes::after(s, n));
    assert forall|i: int| 0 <= i < n implies #[trigger] s[i] < 0x80 by {
        assert(prefix[i] < 0x80);
    }
    text::lemma_valid_behind_ascii(s, n);
}

/// A text in which ASCII characters stand, and what stands around the first of
/// them.
proof fn lemma_found(s: Seq<u8>, mark: Seq<u8>)
    requires
        valid_utf8(s),
        bytes::is_ascii(mark),
        mark.len() > 0,
        bytes::first_index(s, mark) is Some,
    ensures
        ({
            let i = bytes::first_index(s, mark)->0;
            let before = bytes::before(s, i);
            let rest = bytes::after(s, i + mark.len());
            &&& s == before + mark + rest
            &&& valid_utf8(before)
            &&& valid_utf8(rest)
            &&& !bytes::contains(before, mark)
        }),
{
    bytes::lemma_first_index_is_first(s, mark);
    let i = bytes::first_index(s, mark)->0;
    let n = mark.len() as int;
    let before = bytes::before(s, i);
    let tail = bytes::after(s, i);
    assert(s.subrange(i, i + n) == mark);
    assert(s[i] == s.subrange(i, i + n)[0]);
    assert(mark[0] < 0x80);
    text::lemma_valid_before_ascii(s, i);
    assert forall|j: int| 0 <= j < n implies #[trigger] tail[j] < 0x80 by {
        assert(mark[j] < 0x80);
        assert(tail[j] == s.subrange(i, i + n)[j]);
    }
    text::lemma_valid_behind_ascii(tail, n);
    assert(tail.subrange(n, tail.len() as int) =~= bytes::after(s, i + n));
    assert(s =~= before + s.subrange(i, i + n) + bytes::after(s, i + n));
    if bytes::contains(before, mark) {
        let j = choose|j: int| bytes::occurs_at(before, mark, j);
        assert(s.subrange(j, j + n) =~= before.subrange(j, j + n));
        assert(bytes::occurs_at(s, mark, j));
    }
}

/// How a document is put together again.
proof fn lemma_written_error_is_encoded(document: ErrorDocument)
    ensures
        encode_utf8(written_error(document)) == encode_utf8(document.leading) + (match
            document.declaration {
            Some((declared, gap)) => "<?xml".spec_bytes() + encode_utf8(declared)
                + "?>".spec_bytes() + encode_utf8(gap),
            None => Seq::empty(),
        }) + "<Error>".spec_bytes() + encode_utf8(document.inner) + "<Code>".spec_bytes()
            + encode_utf8(document.code) + "</Code>".spec_bytes() + encode_utf8(document.rest),
{
    let declaration = match document.declaration {
        Some((declared, gap)) => "<?xml"@ + declared + "?>"@ + gap,
        None => Seq::empty(),
    };
    if let Some((declared, gap)) = document.declaration {
        text::lemma_encoded_concat("<?xml"@ + declared + "?>"@, gap);
        text::lemma_encoded_concat("<?xml"@ + declared, "?>"@);
        text::lemma_encoded_concat("<?xml"@, declared);
    } else {
        assert(encode_utf8(declaration) =~= Seq::<u8>::empty());
    }
    let a = document.leading + declaration;
    let b = a + "<Error>"@;
    let c = b + document.inner;
    let d = c + "<Code>"@;
    let e = d + document.code;
    let f = e + "</Code>"@;
    text::lemma_encoded_concat(document.leading, declaration);
    text::lemma_encoded_concat(a, "<Error>"@);
    text::lemma_encoded_concat(b, document.inner);
    text::lemma_encoded_concat(c, "<Code>"@);
    text::lemma_encoded_concat(d, document.code);
    text::lemma_encoded_concat(e, "</Code>"@);
    text::lemma_encoded_concat(f, document.rest);
}

proof fn lemma_marks_are_ascii()
    ensures
        bytes::is_ascii("<?xml".spec_bytes()),
        bytes::is_ascii("?>".spec_bytes()),
        bytes::is_ascii("<Error>".spec_bytes()),
        bytes::is_ascii("<Code>".spec_bytes()),
        bytes::is_ascii("</Code>".spec_bytes()),
        "?>".spec_bytes().len() == 2,
        "</Code>".spec_bytes().len() == 7,
{
    reveal_strlit("<?xml");
    is_ascii_chars_encode_utf8("<?xml"@);
    reveal_strlit("?>");
    is_ascii_chars_encode_utf8("?>"@);
    reveal_strlit("<Error>");
    is_ascii_chars_encode_utf8("<Error>"@);
    reveal_strlit("<Code>");
    is_ascii_chars_encode_utf8("<Code>"@);
    reveal_strlit("</Code>");
    is_ascii_chars_encode_utf8("</Code>"@);
}

/// The declaration at the start of a document, in bytes.
spec fn opening(declaration: Option<(Seq<char>, Seq<char>)>) -> Seq<u8> {
    match declaration {
        Some((declared, gap)) => "<?xml".spec_bytes() + encode_utf8(declared) + "?>".spec_bytes()
            + encode_utf8(gap),
        None => Seq::empty(),
    }
}

/// The element of a document, in bytes.
spec fn element(inner: Seq<char>, code: Seq<char>, rest: Seq<char>) -> Seq<u8> {
    "<Error>".spec_bytes() + (encode_utf8(inner) + ("<Code>".spec_bytes() + (encode_utf8(code)
        + "</Code>".spec_bytes() + encode_utf8(rest))))
}

proof fn lemma_five(a: Seq<u8>, b: Seq<u8>, c: Seq<u8>, d: Seq<u8>)
    ensures
        a + (b + c + d) == a + b + c + d,
{
    assert(a + (b + c + d) =~= a + b + c + d);
}

/// What is skipped before the element of a document is a declaration.
proof fn lemma_opening(start: Seq<u8>) -> (declaration: Option<(Seq<char>, Seq<char>)>)
    requires
        valid_utf8(start),
        behind_declaration(start) is Some,
    ensures
        start == opening(declaration) + behind_declaration(start)->0,
        valid_utf8(behind_declaration(start)->0),
        declaration matches Some((declared, gap)) ==> text::is_white_text(gap)
            && !bytes::contains(encode_utf8(declared), "?>".spec_bytes()),
{
    lemma_marks_are_ascii();
    let a = "<?xml".spec_bytes();
    let mark = "?>".spec_bytes();
    match bytes::stripped(start, a) {
        None => {
            assert(start =~= Seq::<u8>::empty() + start);
            None
        },
        Some(rest) => {
            lemma_begins(start, a);
            lemma_found(rest, mark);
            let i = bytes::first_index(rest, mark)->0;
            let head = bytes::before(rest, i);
            let tail = bytes::after(rest, i + 2);
            let gap = text::lemma_trimmed_is_white(tail);
            let end = text::trim_space_start(tail);
            decode_utf8_encode_utf8(head);
            lemma_five(a, head, mark, encode_utf8(gap) + end);
            assert(a + head + mark + (encode_utf8(gap) + end) =~= (a + head + mark + encode_utf8(
                gap,
            )) + end);
            Some((decode_utf8(head), gap))
        },
    }
}

/// A document whose code is found holds that code in its element.
proof fn lemma_element(document: Seq<u8>) -> (r: (Seq<char>, Seq<char>, Seq<char>))
    requires
        valid_utf8(document),
        bytes::stripped(document, "<Error>".spec_bytes()) is Some,
        bytes::stripped(
            text::trim_space_start(bytes::stripped(document, "<Error>".spec_bytes())->0),
            "<Code>".spec_bytes(),
        ) is Some,
        ({
            let inside = text::trim_space_start(
                bytes::stripped(document, "<Error>".spec_bytes())->0,
            );
            let rest = bytes::stripped(inside, "<Code>".spec_bytes())->0;
            bytes::first_index(rest, "</Code>".spec_bytes()) is Some
        }),
    ensures
        document == element(r.0, r.1, r.2),
        text::is_white_text(r.0),
        !bytes::contains(encode_utf8(r.1), "</Code>".spec_bytes()),
        ({
            let inside = text::trim_space_start(
                bytes::stripped(document, "<Error>".spec_bytes())->0,
            );
            let rest = bytes::stripped(inside, "<Code>".spec_bytes())->0;
            let i = bytes::first_index(rest, "</Code>".spec_bytes())->0;
            encode_utf8(r.1) == bytes::before(rest, i)
        }),
{
    lemma_marks_are_ascii();
    lemma_begins(document, "<Error>".spec_bytes());
    let error = bytes::stripped(document, "<Error>".spec_bytes())->0;
    let inner = text::lemma_trimmed_is_white(error);
    let inside = text::trim_space_start(error);
    lemma_begins(inside, "<Code>".spec_bytes());
    let rest = bytes::stripped(inside, "<Code>".spec_bytes())->0;
    lemma_found(rest, "</Code>".spec_bytes());
    let i = bytes::first_index(rest, "</Code>".spec_bytes())->0;
    decode_utf8_encode_utf8(bytes::before(rest, i));
    decode_utf8_encode_utf8(bytes::after(rest, i + 7));
    (inner, decode_utf8(bytes::before(rest, i)), decode_utf8(bytes::after(rest, i + 7)))
}

/// The parts of a document, however they are grouped.
proof fn lemma_parts(
    a: Seq<u8>,
    b: Seq<u8>,
    c: Seq<u8>,
    d: Seq<u8>,
    e: Seq<u8>,
    f: Seq<u8>,
    g: Seq<u8>,
    h: Seq<u8>,
)
    ensures
        a + (b + (c + (d + (e + (f + g + h))))) == a + b + c + d + e + f + g + h,
{
    let x = e + (f + g + h);
    assert(x =~= e + f + g + h);
    assert(a + (b + (c + (d + x))) =~= a + b + c + d + x);
    assert(a + b + c + d + (e + f + g + h) =~= a + b + c + d + e + f + g + h);
}

/// A refused signing time is never guessed: it is read from an error document
/// alone, whose code says so.
pub proof fn law_clock_skew_is_never_guessed(body: Seq<u8>)
    requires
        clock_skew_code(body) is Some,
    ensures
        exists|document: ErrorDocument|
            {
                &&& is_error_document(document)
                &&& body == #[trigger] encode_utf8(written_error(document))
                &&& document.code == "RequestTimeTooSkewed"@ || document.code
                    == "RequestExpired"@
            },
{
    let leading = text::lemma_trimmed_is_white(body);
    let start = text::trim_space_start(body);
    let declaration = lemma_opening(start);
    let (inner, code, rest) = lemma_element(behind_declaration(start)->0);
    encode_utf8_decode_utf8("RequestTimeTooSkewed"@);
    encode_utf8_decode_utf8("RequestExpired"@);
    encode_utf8_decode_utf8(code);
    let found = ErrorDocument { leading, declaration, inner, code, rest };
    lemma_written_error_is_encoded(found);
    lemma_parts(
        encode_utf8(leading),
        opening(declaration),
        "<Error>".spec_bytes(),
        encode_utf8(inner),
        "<Code>".spec_bytes(),
        encode_utf8(code),
        "</Code>".spec_bytes(),
        encode_utf8(rest),
    );
    assert(is_error_document(found));
    assert(body == encode_utf8(written_error(found)));
}

} // verus!
