//! The header of an HTTP response.

use crate::bytes;
use crate::error;
use crate::error::{HttpError, HttpErrorKind};
use crate::number;
use crate::text;
use vstd::prelude::*;
use vstd::string::*;
use vstd::utf8::*;

verus! {

pub const MAX_HEADER_BYTES: usize = 32 * 1024;

/// The length of the header with its blank line.
pub open spec fn header_length(raw: Seq<u8>) -> Result<int, HttpError> {
    match bytes::first_index(raw, bytes::header_terminator()) {
        None => Err(
            HttpError::new(HttpErrorKind::Protocol, "S3 response has no complete HTTP header"),
        ),
        Some(offset) => if offset + 4 > MAX_HEADER_BYTES {
            Err(
                HttpError::new(HttpErrorKind::Limit, "S3 response header exceeds the byte limit"),
            )
        } else {
            Ok(offset + 4)
        },
    }
}

/// Finds the end of the header.
pub fn header_end(raw: &[u8]) -> (result: Result<usize, HttpError>)
    ensures
        match header_length(raw@) {
            Ok(end) => result == Ok::<usize, HttpError>(end as usize) && 4 <= end <= raw@.len(),
            Err(error) => result == Err::<usize, HttpError>(error),
        },
{
    match bytes::find(raw, bytes::header_terminator_bytes()) {
        None => Err(
            HttpError::new(HttpErrorKind::Protocol, "S3 response has no complete HTTP header"),
        ),
        Some(offset) => {
            let end: usize = offset + 4;
            if end > MAX_HEADER_BYTES {
                return Err(
                    HttpError::new(
                        HttpErrorKind::Limit,
                        "S3 response header exceeds the byte limit",
                    ),
                );
            }
            Ok(end)
        },
    }
}

/// A byte that may stand in a header name.
#[verifier::allow_in_spec]
pub fn is_token_byte(b: u8) -> bool
    returns
        bytes::is_alphanumeric(b) || b == '!' as u8 || b == '#' as u8 || b == '$' as u8 || b
            == '%' as u8 || b == '&' as u8 || b == '\'' as u8 || b == '*' as u8 || b == '+' as u8
            || b == '-' as u8 || b == '.' as u8 || b == '^' as u8 || b == '_' as u8 || b
            == '`' as u8 || b == '|' as u8 || b == '~' as u8,
{
    bytes::is_alphanumeric(b) || b == '!' as u8 || b == '#' as u8 || b == '$' as u8 || b
        == '%' as u8 || b == '&' as u8 || b == '\'' as u8 || b == '*' as u8 || b == '+' as u8 || b
        == '-' as u8 || b == '.' as u8 || b == '^' as u8 || b == '_' as u8 || b == '`' as u8 || b
        == '|' as u8 || b == '~' as u8
}

/// A byte that may stand in a header value.
#[verifier::allow_in_spec]
pub fn is_value_byte(b: u8) -> bool
    returns
        b == 0x09 || (b >= 0x20 && b != 0x7f),
{
    b == 0x09 || (b >= 0x20 && b != 0x7f)
}

/// A nonempty string of token bytes.
pub open spec fn is_header_name(name: Seq<u8>) -> bool {
    name.len() > 0 && bytes::all(name, |b: u8| is_token_byte(b))
}

/// A string without control bytes other than tabs.
pub open spec fn is_header_value(value: Seq<u8>) -> bool {
    bytes::all(value, |b: u8| is_value_byte(b))
}

pub fn valid_header_name(name: &[u8]) -> (result: bool)
    ensures
        result == is_header_name(name@),
{
    !name.is_empty() && bytes::all_bytes(name, is_token_byte, Ghost(|b: u8| is_token_byte(b)))
}

pub fn valid_header_value(value: &[u8]) -> (result: bool)
    ensures
        result == is_header_value(value@),
{
    bytes::all_bytes(value, is_value_byte, Ghost(|b: u8| is_value_byte(b)))
}

/// The piece of `s` before its first space, or all of it.
pub open spec fn first_word(s: Seq<u8>) -> Seq<u8> {
    match bytes::first_index(s, seq![' ' as u8]) {
        Some(i) => bytes::before(s, i),
        None => s,
    }
}

/// The status that a status line carries: HTTP 1.0 or 1.1, one space, and
/// three digits from 100 to 599, which a space or the end of the line follows.
pub open spec fn status_of(line: Seq<u8>) -> Result<u16, HttpError> {
    let version = first_word(line);
    if version != "HTTP/1.1".spec_bytes() && version != "HTTP/1.0".spec_bytes() {
        Err(
            HttpError::new(
                HttpErrorKind::Protocol,
                "S3 response uses an unsupported HTTP version",
            ),
        )
    } else {
        let code = first_word(bytes::after(line, version.len() + 1int));
        if version.len() < line.len() && code.len() == 3 && (number::parsed(
            code,
            10,
            599,
        ) matches Some(status) && 100 <= status) {
            Ok(number::value(code, 10) as u16)
        } else {
            Err(
                HttpError::new(
                    HttpErrorKind::Protocol,
                    "S3 response has an invalid HTTP status",
                ),
            )
        }
    }
}

fn leading_word(s: &[u8]) -> (result: &[u8])
    ensures
        result@ == first_word(s@),
        result@.len() <= s@.len(),
{
    let space: [u8; 1] = [' ' as u8];
    assert(space@ =~= seq![' ' as u8]);
    match bytes::find(s, &space) {
        Some(i) => &s[0..i],
        None => s,
    }
}

/// Reads the status line.
pub fn parse_status(line: &[u8]) -> (result: Result<u16, HttpError>)
    ensures
        result == status_of(line@),
{
    let version = leading_word(line);
    if !bytes::equal(version, "HTTP/1.1".as_bytes()) && !bytes::equal(
        version,
        "HTTP/1.0".as_bytes(),
    ) {
        return Err(
            HttpError::new(
                HttpErrorKind::Protocol,
                "S3 response uses an unsupported HTTP version",
            ),
        );
    }
    if version.len() < line.len() {
        let code = leading_word(&line[version.len() + 1..line.len()]);
        if code.len() == 3 {
            if let Some(status) = number::parse(code, 10, 599) {
                if status >= 100 {
                    return Ok(status as u16);
                }
            }
        }
    }
    Err(HttpError::new(HttpErrorKind::Protocol, "S3 response has an invalid HTTP status"))
}

/// What the header fields that matter to the client say.
#[verifier::ext_equal]
pub struct HeaderFields {
    pub content_length: Option<u64>,
    pub transfer_encoding: Option<Seq<u8>>,
    pub content_encoding: Option<Seq<u8>>,
    pub etag: Option<Seq<u8>>,
    pub last_modified: Option<Seq<u8>>,
}

/// No field was seen yet.
pub open spec fn no_fields() -> HeaderFields {
    HeaderFields {
        content_length: None,
        transfer_encoding: None,
        content_encoding: None,
        etag: None,
        last_modified: None,
    }
}

/// The fields after one more field. Other fields than the five change nothing,
/// and none of the five may come twice.
pub open spec fn with_field(fields: HeaderFields, name: Seq<u8>, value: Seq<u8>) -> Result<
    HeaderFields,
    HttpError,
> {
    if bytes::equal_ignoring_case(name, "content-length".spec_bytes()) {
        if fields.content_length is Some {
            Err(HttpError::new(HttpErrorKind::Protocol, "S3 response repeats Content-Length"))
        } else {
            match number::parsed(number::unsigned(value), 10, u64::MAX as nat) {
                Some(length) => Ok(HeaderFields { content_length: Some(length as u64), ..fields }),
                None => Err(
                    HttpError::new(
                        HttpErrorKind::Protocol,
                        "S3 response has an invalid Content-Length",
                    ),
                ),
            }
        }
    } else if bytes::equal_ignoring_case(name, "transfer-encoding".spec_bytes()) {
        if fields.transfer_encoding is Some {
            Err(HttpError::new(HttpErrorKind::Protocol, "S3 response repeats Transfer-Encoding"))
        } else {
            Ok(HeaderFields { transfer_encoding: Some(value), ..fields })
        }
    } else if bytes::equal_ignoring_case(name, "content-encoding".spec_bytes()) {
        if fields.content_encoding is Some {
            Err(HttpError::new(HttpErrorKind::Protocol, "S3 response repeats Content-Encoding"))
        } else {
            Ok(HeaderFields { content_encoding: Some(value), ..fields })
        }
    } else if bytes::equal_ignoring_case(name, "etag".spec_bytes()) {
        if fields.etag is Some {
            Err(HttpError::new(HttpErrorKind::Protocol, "S3 response repeats ETag"))
        } else {
            Ok(HeaderFields { etag: Some(value), ..fields })
        }
    } else if bytes::equal_ignoring_case(name, "last-modified".spec_bytes()) {
        if fields.last_modified is Some {
            Err(HttpError::new(HttpErrorKind::Protocol, "S3 response repeats Last-Modified"))
        } else {
            Ok(HeaderFields { last_modified: Some(value), ..fields })
        }
    } else {
        Ok(fields)
    }
}

/// The fields after one more line: a name, a colon, and a value without the
/// spaces and tabs around it. Blank lines change nothing.
pub open spec fn with_line(fields: HeaderFields, line: Seq<u8>) -> Result<HeaderFields, HttpError> {
    if line.len() == 0 {
        Ok(fields)
    } else {
        match bytes::first_index(line, seq![':' as u8]) {
            Some(i) => {
                let name = bytes::before(line, i);
                let value = bytes::trim_blanks(bytes::after(line, i + 1));
                if is_header_name(name) && is_header_value(value) {
                    with_field(fields, name, value)
                } else {
                    Err(
                        HttpError::new(
                            HttpErrorKind::Protocol,
                            "S3 response contains a malformed HTTP header",
                        ),
                    )
                }
            },
            None => Err(
                HttpError::new(
                    HttpErrorKind::Protocol,
                    "S3 response contains a malformed HTTP header",
                ),
            ),
        }
    }
}

/// The fields after a number of lines, or the first line's error.
pub open spec fn with_lines(fields: HeaderFields, lines: Seq<Seq<u8>>) -> Result<
    HeaderFields,
    HttpError,
>
    decreases lines.len(),
{
    if lines.len() == 0 {
        Ok(fields)
    } else {
        match with_line(fields, lines[0]) {
            Ok(next) => with_lines(next, lines.drop_first()),
            Err(error) => Err(error),
        }
    }
}

/// What a response header says.
#[verifier::ext_equal]
pub struct HeaderModel {
    pub status: u16,
    pub content_length: Option<u64>,
    pub chunked: bool,
    pub content_encoding: Option<Seq<u8>>,
    pub etag: Option<Seq<u8>>,
    pub last_modified: Option<Seq<u8>>,
}

/// The header that a status and its fields make. A body is framed in at most
/// one way, and the only transfer encoding is `chunked`.
pub open spec fn framed(status: u16, fields: HeaderFields) -> Result<HeaderModel, HttpError> {
    if fields.content_length is Some && fields.transfer_encoding is Some {
        Err(
            HttpError::new(
                HttpErrorKind::Protocol,
                "S3 response mixes Content-Length and Transfer-Encoding",
            ),
        )
    } else if fields.transfer_encoding matches Some(encoding) && !bytes::equal_ignoring_case(
        encoding,
        "chunked".spec_bytes(),
    ) {
        Err(HttpError::new(HttpErrorKind::Unsupported, "unsupported HTTP transfer encoding"))
    } else {
        Ok(
            HeaderModel {
                status,
                content_length: fields.content_length,
                chunked: fields.transfer_encoding is Some,
                content_encoding: fields.content_encoding,
                etag: fields.etag,
                last_modified: fields.last_modified,
            },
        )
    }
}

/// What the header that the first `end` bytes hold says: a status line and
/// header lines, all ASCII.
pub open spec fn header_of(raw: Seq<u8>, end: int) -> Result<HeaderModel, HttpError> {
    let head = bytes::before(raw, end - 2);
    if !bytes::is_ascii(head) {
        Err(HttpError::new(HttpErrorKind::Protocol, "S3 response header is not valid ASCII"))
    } else {
        let lines = bytes::split_on(head, bytes::crlf());
        match status_of(lines[0]) {
            Err(error) => Err(error),
            Ok(status) => match with_lines(no_fields(), lines.drop_first()) {
                Err(error) => Err(error),
                Ok(fields) => framed(status, fields),
            },
        }
    }
}

/// The encoding of an optional text.
pub open spec fn encoded(value: Option<String>) -> Option<Seq<u8>> {
    match value {
        Some(string) => Some(encode_utf8(string@)),
        None => None,
    }
}

/// The bytes of an optional slice.
pub open spec fn viewed(value: Option<&[u8]>) -> Option<Seq<u8>> {
    match value {
        Some(slice) => Some(slice@),
        None => None,
    }
}

/// A parsed response header.
pub struct ResponseHeaders {
    pub status: u16,
    pub content_length: Option<u64>,
    pub chunked: bool,
    pub content_encoding: Option<String>,
    pub etag: Option<String>,
    pub last_modified: Option<String>,
}

impl View for ResponseHeaders {
    type V = HeaderModel;

    open spec fn view(&self) -> HeaderModel {
        HeaderModel {
            status: self.status,
            content_length: self.content_length,
            chunked: self.chunked,
            content_encoding: encoded(self.content_encoding),
            etag: encoded(self.etag),
            last_modified: encoded(self.last_modified),
        }
    }
}

/// The fields seen so far.
struct Fields<'a> {
    content_length: Option<u64>,
    transfer_encoding: Option<&'a [u8]>,
    content_encoding: Option<&'a [u8]>,
    etag: Option<String>,
    last_modified: Option<String>,
}

impl<'a> Fields<'a> {
    spec fn model(&self) -> HeaderFields {
        HeaderFields {
            content_length: self.content_length,
            transfer_encoding: viewed(self.transfer_encoding),
            content_encoding: viewed(self.content_encoding),
            etag: encoded(self.etag),
            last_modified: encoded(self.last_modified),
        }
    }

    /// The content encoding came out of an ASCII header.
    spec fn wf(&self) -> bool {
        self.content_encoding matches Some(encoding) ==> bytes::is_ascii(encoding@)
    }

    fn add_field(&mut self, name: &[u8], value: &'a [u8]) -> (result: Result<(), HttpError>)
        requires
            old(self).wf(),
            bytes::is_ascii(value@),
        ensures
            match with_field(old(self).model(), name@, value@) {
                Ok(next) => result is Ok && final(self).model() == next && final(self).wf(),
                Err(error) => result == Err::<(), HttpError>(error),
            },
    {
        if bytes::eq_ignore_case(name, "content-length".as_bytes()) {
            if self.content_length.is_some() {
                return Err(
                    HttpError::new(HttpErrorKind::Protocol, "S3 response repeats Content-Length"),
                );
            }
            match number::parse_signed(value, 10, u64::MAX) {
                Some(length) => {
                    self.content_length = Some(length);
                },
                None => {
                    return Err(
                        HttpError::new(
                            HttpErrorKind::Protocol,
                            "S3 response has an invalid Content-Length",
                        ),
                    );
                },
            }
        } else if bytes::eq_ignore_case(name, "transfer-encoding".as_bytes()) {
            if self.transfer_encoding.is_some() {
                return Err(
                    HttpError::new(
                        HttpErrorKind::Protocol,
                        "S3 response repeats Transfer-Encoding",
                    ),
                );
            }
            self.transfer_encoding = Some(value);
        } else if bytes::eq_ignore_case(name, "content-encoding".as_bytes()) {
            if self.content_encoding.is_some() {
                return Err(
                    HttpError::new(HttpErrorKind::Protocol, "S3 response repeats Content-Encoding"),
                );
            }
            self.content_encoding = Some(value);
        } else if bytes::eq_ignore_case(name, "etag".as_bytes()) {
            set_unique_metadata_header(&mut self.etag, value, "S3 response repeats ETag")?;
        } else if bytes::eq_ignore_case(name, "last-modified".as_bytes()) {
            set_unique_metadata_header(
                &mut self.last_modified,
                value,
                "S3 response repeats Last-Modified",
            )?;
        }
        Ok(())
    }

    fn add_line(&mut self, line: &'a [u8]) -> (result: Result<(), HttpError>)
        requires
            old(self).wf(),
            bytes::is_ascii(line@),
        ensures
            match with_line(old(self).model(), line@) {
                Ok(next) => result is Ok && final(self).model() == next && final(self).wf(),
                Err(error) => result == Err::<(), HttpError>(error),
            },
    {
        if line.is_empty() {
            return Ok(());
        }
        let colon: [u8; 1] = [':' as u8];
        assert(colon@ =~= seq![':' as u8]);
        match bytes::find(line, &colon) {
            Some(i) => {
                let name = &line[0..i];
                let rest: &'a [u8] = &line[i + 1..line.len()];
                let value: &'a [u8] = bytes::trim(rest);
                if !valid_header_name(name) || !valid_header_value(value) {
                    return Err(
                        HttpError::new(
                            HttpErrorKind::Protocol,
                            "S3 response contains a malformed HTTP header",
                        ),
                    );
                }
                proof {
                    bytes::lemma_trim_all(rest@, |b: u8| b < 0x80);
                }
                self.add_field(name, value)
            },
            None => Err(
                HttpError::new(
                    HttpErrorKind::Protocol,
                    "S3 response contains a malformed HTTP header",
                ),
            ),
        }
    }
}

/// Sets a field that may be set only once.
fn set_unique_metadata_header(
    target: &mut Option<String>,
    value: &[u8],
    repeated_message: &'static str,
) -> (result: Result<(), HttpError>)
    requires
        bytes::is_ascii(value@),
    ensures
        *old(target) is Some ==> result == Err::<(), HttpError>(
            HttpError::new(HttpErrorKind::Protocol, repeated_message),
        ) && *final(target) == *old(target),
        *old(target) is None ==> result is Ok && encoded(*final(target)) == Some(value@),
{
    if target.is_some() {
        return Err(HttpError::new(HttpErrorKind::Protocol, repeated_message));
    }
    proof {
        text::lemma_ascii_is_utf8(value@);
    }
    *target = Some(text::utf8_string(value));
    Ok(())
}

/// Parses the header that the first `end` bytes hold.
pub fn parse_headers(raw: &[u8], end: usize) -> (result: Result<ResponseHeaders, HttpError>)
    requires
        2 <= end <= raw@.len(),
    ensures
        error::agrees(result, header_of(raw@, end as int)),
{
    let head = &raw[0..end - 2];
    if !bytes::ascii(head) {
        return Err(
            HttpError::new(HttpErrorKind::Protocol, "S3 response header is not valid ASCII"),
        );
    }
    let lines: Vec<&[u8]> = bytes::split(head, bytes::crlf_bytes());
    let ghost all_lines = bytes::split_on(head@, bytes::crlf());
    assert(bytes::pieces(lines@)[0] == lines@[0]@);
    let status = parse_status(lines[0])?;
    let mut fields = Fields {
        content_length: None,
        transfer_encoding: None,
        content_encoding: None,
        etag: None,
        last_modified: None,
    };
    proof {
        bytes::lemma_split_all(head@, bytes::crlf(), |b: u8| b < 0x80);
    }
    let mut i: usize = 1;
    assert(all_lines.drop_first() =~= all_lines.subrange(1, all_lines.len() as int));
    while i < lines.len()
        invariant
            1 <= i <= lines@.len(),
            bytes::pieces(lines@) == all_lines,
            forall|k: int| 0 <= k < all_lines.len() ==> bytes::is_ascii(#[trigger] all_lines[k]),
            fields.wf(),
            with_lines(no_fields(), all_lines.drop_first()) == with_lines(
                fields.model(),
                all_lines.subrange(i as int, all_lines.len() as int),
            ),
            head@ == bytes::before(raw@, end - 2),
            all_lines == bytes::split_on(head@, bytes::crlf()),
            bytes::is_ascii(head@),
            status_of(all_lines[0]) is Ok,
        decreases lines.len() - i,
    {
        let ghost rest = all_lines.subrange(i as int, all_lines.len() as int);
        assert(bytes::pieces(lines@)[i as int] == lines@[i as int]@);
        assert(rest[0] == lines@[i as int]@);
        assert(rest.drop_first() =~= all_lines.subrange(i + 1, all_lines.len() as int));
        fields.add_line(lines[i])?;
        i += 1;
    }
    if fields.content_length.is_some() && fields.transfer_encoding.is_some() {
        return Err(
            HttpError::new(
                HttpErrorKind::Protocol,
                "S3 response mixes Content-Length and Transfer-Encoding",
            ),
        );
    }
    let chunked = match fields.transfer_encoding {
        None => false,
        Some(encoding) => {
            if !bytes::eq_ignore_case(encoding, "chunked".as_bytes()) {
                return Err(
                    HttpError::new(
                        HttpErrorKind::Unsupported,
                        "unsupported HTTP transfer encoding",
                    ),
                );
            }
            true
        },
    };
    let content_encoding = match fields.content_encoding {
        None => None,
        Some(encoding) => {
            proof {
                text::lemma_ascii_is_utf8(encoding@);
            }
            Some(text::utf8_string(encoding))
        },
    };
    Ok(
        ResponseHeaders {
            status,
            content_length: fields.content_length,
            chunked,
            content_encoding,
            etag: fields.etag,
            last_modified: fields.last_modified,
        },
    )
}

/// The error that a status other than 200 is reported as.
pub open spec fn error_of_status(status: u16) -> Option<HttpError> {
    if status == 200 {
        None
    } else if status == 401 || status == 403 {
        Some(HttpError::with_status(HttpErrorKind::Denied, status, "S3 request was denied"))
    } else if status == 404 {
        Some(HttpError::with_status(HttpErrorKind::NotFound, status, "S3 object was not found"))
    } else if 300 <= status <= 399 {
        Some(
            HttpError::with_status(
                HttpErrorKind::Unsupported,
                status,
                "S3 redirect responses are unsupported",
            ),
        )
    } else if 500 <= status <= 599 {
        Some(
            HttpError::with_status(HttpErrorKind::Server, status, "S3 server returned an error"),
        )
    } else {
        Some(
            HttpError::with_status(
                HttpErrorKind::Protocol,
                status,
                "S3 server returned an unexpected status",
            ),
        )
    }
}

pub fn status_error(status: u16) -> (result: Option<HttpError>)
    ensures
        result == error_of_status(status),
{
    if status == 200 {
        None
    } else if status == 401 || status == 403 {
        Some(HttpError::with_status(HttpErrorKind::Denied, status, "S3 request was denied"))
    } else if status == 404 {
        Some(HttpError::with_status(HttpErrorKind::NotFound, status, "S3 object was not found"))
    } else if 300 <= status && status <= 399 {
        Some(
            HttpError::with_status(
                HttpErrorKind::Unsupported,
                status,
                "S3 redirect responses are unsupported",
            ),
        )
    } else if 500 <= status && status <= 599 {
        Some(
            HttpError::with_status(HttpErrorKind::Server, status, "S3 server returned an error"),
        )
    } else {
        Some(
            HttpError::with_status(
                HttpErrorKind::Protocol,
                status,
                "S3 server returned an unexpected status",
            ),
        )
    }
}

/// A body is taken as it is, so that no other content encoding is read.
pub open spec fn is_identity_encoded(header: HeaderModel) -> bool {
    header.content_encoding matches Some(encoding) ==> bytes::equal_ignoring_case(
        encoding,
        "identity".spec_bytes(),
    )
}

/// The error that a compressed body is refused with.
pub open spec fn compressed_error() -> HttpError {
    HttpError::new(
        HttpErrorKind::Unsupported,
        "compressed HTTP content encoding is unsupported",
    )
}

pub fn validate_get_content_encoding(headers: &ResponseHeaders) -> (result: Result<(), HttpError>)
    ensures
        result == (if is_identity_encoded(headers@) {
            Ok::<(), HttpError>(())
        } else {
            Err(compressed_error())
        }),
{
    if let Some(encoding) = &headers.content_encoding {
        if !bytes::eq_ignore_case(encoding.as_str().as_bytes(), "identity".as_bytes()) {
            return Err(
                HttpError::new(
                    HttpErrorKind::Unsupported,
                    "compressed HTTP content encoding is unsupported",
                ),
            );
        }
    }
    Ok(())
}

/// The name in a header line: what stands before its first colon.
pub open spec fn line_name(line: Seq<u8>) -> Option<Seq<u8>> {
    match bytes::first_index(line, seq![':' as u8]) {
        Some(i) => Some(bytes::before(line, i)),
        None => None,
    }
}

/// Whether a name is that of a field which matters to the client.
pub open spec fn is_tracked(name: Seq<u8>) -> bool {
    ||| bytes::equal_ignoring_case(name, "content-length".spec_bytes())
    ||| bytes::equal_ignoring_case(name, "transfer-encoding".spec_bytes())
    ||| bytes::equal_ignoring_case(name, "content-encoding".spec_bytes())
    ||| bytes::equal_ignoring_case(name, "etag".spec_bytes())
    ||| bytes::equal_ignoring_case(name, "last-modified".spec_bytes())
}

/// Whether the field of this name was seen.
spec fn is_seen(fields: HeaderFields, name: Seq<u8>) -> bool {
    if bytes::equal_ignoring_case(name, "content-length".spec_bytes()) {
        fields.content_length is Some
    } else if bytes::equal_ignoring_case(name, "transfer-encoding".spec_bytes()) {
        fields.transfer_encoding is Some
    } else if bytes::equal_ignoring_case(name, "content-encoding".spec_bytes()) {
        fields.content_encoding is Some
    } else if bytes::equal_ignoring_case(name, "etag".spec_bytes()) {
        fields.etag is Some
    } else {
        fields.last_modified is Some
    }
}

/// Two names that are equal up to case are equal up to case to the same names.
proof fn lemma_names_agree(a: Seq<u8>, b: Seq<u8>, c: Seq<u8>)
    requires
        bytes::equal_ignoring_case(a, b),
    ensures
        bytes::equal_ignoring_case(a, c) == bytes::equal_ignoring_case(b, c),
{
    if bytes::equal_ignoring_case(b, c) {
        assert forall|i: int| 0 <= i < a.len() implies bytes::to_lowercase(#[trigger] a[i])
            == bytes::to_lowercase(c[i]) by {
            assert(bytes::to_lowercase(b[i]) == bytes::to_lowercase(c[i]));
        }
    }
    if bytes::equal_ignoring_case(a, c) {
        assert forall|i: int| 0 <= i < b.len() implies bytes::to_lowercase(#[trigger] b[i])
            == bytes::to_lowercase(c[i]) by {
            assert(bytes::to_lowercase(a[i]) == bytes::to_lowercase(c[i]));
        }
    }
}

proof fn lemma_seen_names_agree(fields: HeaderFields, a: Seq<u8>, b: Seq<u8>)
    requires
        bytes::equal_ignoring_case(a, b),
    ensures
        is_seen(fields, a) == is_seen(fields, b),
        is_tracked(a) == is_tracked(b),
{
    lemma_names_agree(a, b, "content-length".spec_bytes());
    lemma_names_agree(a, b, "transfer-encoding".spec_bytes());
    lemma_names_agree(a, b, "content-encoding".spec_bytes());
    lemma_names_agree(a, b, "etag".spec_bytes());
    lemma_names_agree(a, b, "last-modified".spec_bytes());
}

proof fn lemma_seen_fields_are_kept(fields: HeaderFields, lines: Seq<Seq<u8>>, i: int)
    requires
        0 <= i < lines.len(),
        line_name(lines[i]) matches Some(name) && lines[i].len() > 0 && is_tracked(name) && is_seen(
            fields,
            name,
        ),
    ensures
        with_lines(fields, lines) is Err,
    decreases lines.len(),
{
    if i > 0 && with_line(fields, lines[0]) is Ok {
        assert(lines.drop_first()[i - 1] == lines[i]);
        lemma_seen_fields_are_kept(
            with_line(fields, lines[0])->Ok_0,
            lines.drop_first(),
            i - 1,
        );
    }
}

proof fn lemma_repeated_fields(fields: HeaderFields, lines: Seq<Seq<u8>>, i: int, j: int)
    requires
        0 <= i < j < lines.len(),
        line_name(lines[i]) matches Some(a) && line_name(lines[j]) matches Some(b) && is_tracked(a)
            && bytes::equal_ignoring_case(a, b),
    ensures
        with_lines(fields, lines) is Err,
    decreases lines.len(),
{
    bytes::lemma_first_index_is_first(lines[i], seq![':' as u8]);
    bytes::lemma_first_index_is_first(lines[j], seq![':' as u8]);
    if with_line(fields, lines[0]) is Ok {
        let next = with_line(fields, lines[0])->Ok_0;
        assert(lines.drop_first()[j - 1] == lines[j]);
        if i > 0 {
            assert(lines.drop_first()[i - 1] == lines[i]);
            lemma_repeated_fields(next, lines.drop_first(), i - 1, j - 1);
        } else {
            lemma_seen_names_agree(next, line_name(lines[i])->0, line_name(lines[j])->0);
            lemma_seen_fields_are_kept(next, lines.drop_first(), j - 1);
        }
    }
}

/// The lines of the header that the first `end` bytes hold.
pub open spec fn header_lines(raw: Seq<u8>, end: int) -> Seq<Seq<u8>> {
    bytes::split_on(bytes::before(raw, end - 2), bytes::crlf())
}

/// No field that matters may come twice: a header of which two lines behind
/// the first carry the same such name, in any case, is refused.
pub proof fn law_repeated_fields_are_refused(raw: Seq<u8>, end: int, i: int, j: int)
    requires
        1 <= i < j < header_lines(raw, end).len(),
        line_name(header_lines(raw, end)[i]) matches Some(a) && line_name(
            header_lines(raw, end)[j],
        ) matches Some(b) && is_tracked(a) && bytes::equal_ignoring_case(a, b),
    ensures
        header_of(raw, end) is Err,
{
    let lines = header_lines(raw, end).drop_first();
    assert(lines[i - 1] == header_lines(raw, end)[i]);
    assert(lines[j - 1] == header_lines(raw, end)[j]);
    lemma_repeated_fields(no_fields(), lines, i - 1, j - 1);
}

/// A field that was seen stays seen.
proof fn lemma_seen_stays_seen(fields: HeaderFields, lines: Seq<Seq<u8>>, name: Seq<u8>)
    requires
        is_seen(fields, name),
    ensures
        with_lines(fields, lines) matches Ok(next) ==> is_seen(next, name),
    decreases lines.len(),
{
    if lines.len() > 0 {
        if let Ok(next) = with_line(fields, lines[0]) {
            lemma_seen_stays_seen(next, lines.drop_first(), name);
        }
    }
}

proof fn lemma_lines_are_seen(fields: HeaderFields, lines: Seq<Seq<u8>>, i: int)
    requires
        0 <= i < lines.len(),
        line_name(lines[i]) matches Some(name) && is_tracked(name),
    ensures
        with_lines(fields, lines) matches Ok(next) ==> is_seen(next, line_name(lines[i])->0),
    decreases lines.len(),
{
    bytes::lemma_first_index_is_first(lines[i], seq![':' as u8]);
    if let Ok(next) = with_line(fields, lines[0]) {
        if i > 0 {
            assert(lines.drop_first()[i - 1] == lines[i]);
            lemma_lines_are_seen(next, lines.drop_first(), i - 1);
        } else {
            lemma_seen_stays_seen(next, lines.drop_first(), line_name(lines[i])->0);
        }
    }
}

/// A header that names a transfer encoding is refused, or its body comes in
/// chunks.
pub proof fn law_transfer_encodings_are_chunked(raw: Seq<u8>, end: int, i: int)
    requires
        1 <= i < header_lines(raw, end).len(),
        line_name(header_lines(raw, end)[i]) matches Some(name) && bytes::equal_ignoring_case(
            name,
            "transfer-encoding".spec_bytes(),
        ),
    ensures
        header_of(raw, end) matches Ok(head) ==> head.chunked,
{
    let lines = header_lines(raw, end).drop_first();
    let name = line_name(header_lines(raw, end)[i])->0;
    assert(lines[i - 1] == header_lines(raw, end)[i]);
    reveal_strlit("content-length");
    is_ascii_chars_encode_utf8("content-length"@);
    reveal_strlit("transfer-encoding");
    is_ascii_chars_encode_utf8("transfer-encoding"@);
    assert(!bytes::equal_ignoring_case(name, "content-length".spec_bytes()));
    lemma_lines_are_seen(no_fields(), lines, i - 1);
}

/// A header line that is written as its name, a colon and its value, with
/// blanks around the value, is read as exactly that name and value.
pub proof fn law_values_are_exact(
    fields: HeaderFields,
    name: Seq<u8>,
    left: Seq<u8>,
    value: Seq<u8>,
    right: Seq<u8>,
)
    requires
        is_header_name(name),
        is_header_value(value),
        bytes::all(left, |b: u8| bytes::is_blank(b)),
        bytes::all(right, |b: u8| bytes::is_blank(b)),
        value.len() > 0 ==> !bytes::is_blank(value[0]) && !bytes::is_blank(value.last()),
    ensures
        with_line(fields, name + seq![':' as u8] + (left + value + right)) == with_field(
            fields,
            name,
            value,
        ),
{
    let colon = seq![':' as u8];
    let line = name + colon + (left + value + right);
    let n = name.len() as int;
    assert(bytes::is_free_of(name, ':' as u8)) by {
        assert forall|i: int| 0 <= i < name.len() implies #[trigger] name[i] != ':' as u8 by {
            assert(is_token_byte(name[i]));
        }
    }
    bytes::lemma_split_first(name, colon, left + value + right);
    assert(bytes::before(line, n) =~= name);
    assert(bytes::after(line, n + 1) =~= left + value + right);
    bytes::lemma_trim_exact(left, value, right);
}

/// A text with its ASCII letters in lower case.
pub open spec fn lowered(s: Seq<u8>) -> Seq<u8> {
    Seq::new(s.len(), |i: int| bytes::to_lowercase(s[i]))
}

/// A header line with its name in lower case.
pub open spec fn lowered_line(line: Seq<u8>) -> Seq<u8> {
    match bytes::first_index(line, seq![':' as u8]) {
        Some(i) => lowered(bytes::before(line, i)) + bytes::after(line, i),
        None => line,
    }
}

/// Header lines with their names in lower case.
pub open spec fn lowered_lines(lines: Seq<Seq<u8>>) -> Seq<Seq<u8>> {
    Seq::new(lines.len(), |i: int| lowered_line(lines[i]))
}

/// Whether a header line is well formed, and says nothing that matters: it is
/// ASCII, and blank or of another name than the five.
pub open spec fn is_unrelated(line: Seq<u8>) -> bool {
    &&& bytes::is_ascii(line)
    &&& line.len() == 0 || match bytes::first_index(line, seq![':' as u8]) {
        Some(i) => {
            &&& is_header_name(bytes::before(line, i))
            &&& is_header_value(bytes::trim_blanks(bytes::after(line, i + 1)))
            &&& !is_tracked(bytes::before(line, i))
        },
        None => false,
    }
}

/// Whether the second header's lines are the first's and `extra` ones, in any
/// order and with their names in any case.
pub open spec fn is_variant(first: Seq<Seq<u8>>, extra: Seq<Seq<u8>>, second: Seq<Seq<u8>>) -> bool {
    lowered_lines(first + extra).to_multiset() == lowered_lines(second).to_multiset()
}

/// The name of a line in lower case is as good as any.
proof fn lemma_lowered_name(name: Seq<u8>)
    ensures
        bytes::equal_ignoring_case(lowered(name), name),
        is_header_name(lowered(name)) == is_header_name(name),
        bytes::is_free_of(name, ':' as u8) ==> bytes::is_free_of(lowered(name), ':' as u8),
{
    let low = lowered(name);
    assert forall|i: int| 0 <= i < low.len() implies bytes::to_lowercase(#[trigger] low[i])
        == bytes::to_lowercase(name[i]) by {}
    if is_header_name(name) {
        assert forall|i: int| 0 <= i < low.len() implies is_token_byte(#[trigger] low[i]) by {
            assert(is_token_byte(name[i]));
        }
    }
    if is_header_name(low) {
        assert forall|i: int| 0 <= i < name.len() implies is_token_byte(#[trigger] name[i]) by {
            assert(is_token_byte(low[i]));
        }
    }
    if bytes::is_free_of(name, ':' as u8) {
        assert forall|i: int| 0 <= i < low.len() implies #[trigger] low[i] != ':' as u8 by {
            assert(name[i] != ':' as u8);
        }
    }
}

/// What stands before the first colon holds none.
proof fn lemma_name_is_free_of_colons(line: Seq<u8>, i: int)
    requires
        bytes::first_index(line, seq![':' as u8]) == Some(i),
    ensures
        0 <= i < line.len(),
        line[i] == ':' as u8,
        bytes::is_free_of(bytes::before(line, i), ':' as u8),
{
    let colon = seq![':' as u8];
    bytes::lemma_first_index_is_first(line, colon);
    assert(line.subrange(i, i + 1)[0] == colon[0]);
    assert forall|j: int| 0 <= j < i implies #[trigger] bytes::before(line, i)[j] != ':' as u8 by {
        if line[j] == ':' as u8 {
            assert(line.subrange(j, j + 1) =~= colon);
            assert(bytes::occurs_at(line, colon, j));
        }
    }
}

/// A line is read alike whatever the case of its name.
proof fn lemma_lowered_line(fields: HeaderFields, line: Seq<u8>)
    ensures
        with_line(fields, lowered_line(line)) == with_line(fields, line),
        bytes::is_ascii(lowered_line(line)) == bytes::is_ascii(line),
{
    let colon = seq![':' as u8];
    let low = lowered_line(line);
    match bytes::first_index(line, colon) {
        None => {},
        Some(i) => {
            let name = bytes::before(line, i);
            let rest = bytes::after(line, i + 1);
            lemma_name_is_free_of_colons(line, i);
            lemma_lowered_name(name);
            assert(low =~= lowered(name) + colon + rest);
            bytes::lemma_split_first(lowered(name), colon, rest);
            assert(bytes::before(low, i) =~= lowered(name));
            assert(bytes::after(low, i + 1) =~= rest);
            lemma_names_agree(lowered(name), name, "content-length".spec_bytes());
            lemma_names_agree(lowered(name), name, "transfer-encoding".spec_bytes());
            lemma_names_agree(lowered(name), name, "content-encoding".spec_bytes());
            lemma_names_agree(lowered(name), name, "etag".spec_bytes());
            lemma_names_agree(lowered(name), name, "last-modified".spec_bytes());
            assert(low.len() == line.len());
            if bytes::is_ascii(line) {
                assert forall|j: int| 0 <= j < low.len() implies #[trigger] low[j] < 0x80 by {
                    assert(line[j] < 0x80);
                }
            }
            if bytes::is_ascii(low) {
                assert forall|j: int| 0 <= j < line.len() implies #[trigger] line[j] < 0x80 by {
                    assert(low[j] < 0x80);
                }
            }
        },
    }
}

/// The fields after one more line, where there are any.
spec fn read_line(fields: Option<HeaderFields>, line: Seq<u8>) -> Option<HeaderFields> {
    match fields {
        Some(fields) => match with_line(fields, line) {
            Ok(next) => Some(next),
            Err(_) => None,
        },
        None => None,
    }
}

/// Two fields may be read in either order.
proof fn lemma_fields_commute(
    fields: HeaderFields,
    a: Seq<u8>,
    v: Seq<u8>,
    b: Seq<u8>,
    w: Seq<u8>,
)
    ensures
        ({
            let first = match with_field(fields, a, v) {
                Ok(next) => match with_field(next, b, w) {
                    Ok(last) => Some(last),
                    Err(_) => None,
                },
                Err(_) => None,
            };
            let second = match with_field(fields, b, w) {
                Ok(next) => match with_field(next, a, v) {
                    Ok(last) => Some(last),
                    Err(_) => None,
                },
                Err(_) => None,
            };
            first == second
        }),
{
}

/// What a well-formed line with a name says.
spec fn line_field(line: Seq<u8>) -> Option<(Seq<u8>, Seq<u8>)> {
    match bytes::first_index(line, seq![':' as u8]) {
        Some(i) if is_header_name(bytes::before(line, i)) && is_header_value(
            bytes::trim_blanks(bytes::after(line, i + 1)),
        ) => Some((bytes::before(line, i), bytes::trim_blanks(bytes::after(line, i + 1)))),
        _ => None,
    }
}

/// A line is read as what it says.
proof fn lemma_line_field(fields: HeaderFields, line: Seq<u8>)
    requires
        line.len() > 0,
    ensures
        match line_field(line) {
            Some((name, value)) => with_line(fields, line) == with_field(fields, name, value),
            None => with_line(fields, line) is Err,
        },
{
}

/// Two lines may be read in either order.
proof fn lemma_lines_commute(fields: Option<HeaderFields>, x: Seq<u8>, y: Seq<u8>)
    ensures
        read_line(read_line(fields, x), y) == read_line(read_line(fields, y), x),
{
    if let Some(start) = fields {
        if x.len() > 0 && y.len() > 0 {
            lemma_line_field(start, x);
            lemma_line_field(start, y);
            if let Ok(next) = with_line(start, x) {
                lemma_line_field(next, y);
            }
            if let Ok(next) = with_line(start, y) {
                lemma_line_field(next, x);
            }
            if let (Some((a, v)), Some((b, w))) = (line_field(x), line_field(y)) {
                lemma_fields_commute(start, a, v, b, w);
            }
        }
    }
}

/// The fields that lines give, where they give any.
spec fn read_lines(lines: Seq<Seq<u8>>) -> Option<HeaderFields> {
    lines.fold_left(
        Some(no_fields()),
        |fields: Option<HeaderFields>, line: Seq<u8>| read_line(fields, line),
    )
}

proof fn lemma_lines_fold(fields: Option<HeaderFields>, lines: Seq<Seq<u8>>)
    ensures
        lines.fold_left_alt(
            fields,
            |fields: Option<HeaderFields>, line: Seq<u8>| read_line(fields, line),
        ) == (match fields {
            Some(start) => match with_lines(start, lines) {
                Ok(next) => Some(next),
                Err(_) => None,
            },
            None => None,
        }),
    decreases lines.len(),
{
    if lines.len() > 0 {
        assert(lines.subrange(1, lines.len() as int) =~= lines.drop_first());
        lemma_lines_fold(read_line(fields, lines[0]), lines.drop_first());
    }
}

/// Reading lines one after the other is a fold over them.
proof fn lemma_read_lines(lines: Seq<Seq<u8>>)
    ensures
        read_lines(lines) == (match with_lines(no_fields(), lines) {
            Ok(fields) => Some(fields),
            Err(_) => None,
        }),
{
    lines.lemma_fold_left_alt(
        Some(no_fields()),
        |fields: Option<HeaderFields>, line: Seq<u8>| read_line(fields, line),
    );
    lemma_lines_fold(Some(no_fields()), lines);
}

/// Lines are read alike whatever the case of their names.
proof fn lemma_lowered_lines(lines: Seq<Seq<u8>>)
    ensures
        read_lines(lowered_lines(lines)) == read_lines(lines),
    decreases lines.len(),
{
    if lines.len() > 0 {
        let low = lowered_lines(lines);
        lemma_lowered_lines(lines.drop_last());
        assert(low.drop_last() =~= lowered_lines(lines.drop_last()));
        assert(low.last() == lowered_line(lines.last()));
        if let Some(fields) = read_lines(lines.drop_last()) {
            lemma_lowered_line(fields, lines.last());
        }
    } else {
        assert(lowered_lines(lines) =~= lines);
    }
}

/// Lines are read alike in any order.
proof fn lemma_lines_in_any_order(a: Seq<Seq<u8>>, b: Seq<Seq<u8>>)
    requires
        a.to_multiset() == b.to_multiset(),
    ensures
        read_lines(a) == read_lines(b),
{
    let f = |fields: Option<HeaderFields>, line: Seq<u8>| read_line(fields, line);
    assert forall|x: Seq<u8>, y: Seq<u8>, v: Option<HeaderFields>| #[trigger] f(f(v, x), y) == f(
        f(v, y),
        x,
    ) by {
        lemma_lines_commute(v, x, y);
    }
    vstd::seq_lib::lemma_fold_left_permutation(a, b, f, Some(no_fields()));
}

/// Unrelated lines change nothing.
proof fn lemma_unrelated_lines(lines: Seq<Seq<u8>>, extra: Seq<Seq<u8>>)
    requires
        forall|i: int| 0 <= i < extra.len() ==> is_unrelated(#[trigger] extra[i]),
    ensures
        read_lines(lines + extra) == read_lines(lines),
    decreases extra.len(),
{
    if extra.len() == 0 {
        assert(lines + extra =~= lines);
    } else {
        let all = lines + extra;
        let fewer = extra.drop_last();
        assert forall|i: int| 0 <= i < fewer.len() implies is_unrelated(#[trigger] fewer[i]) by {
            assert(is_unrelated(extra[i]));
        }
        lemma_unrelated_lines(lines, fewer);
        assert(all.drop_last() =~= lines + fewer);
        assert(is_unrelated(extra[extra.len() - 1]));
        assert(all.last() == extra.last());
    }
}

/// Whether all lines are ASCII.
spec fn are_ascii(lines: Seq<Seq<u8>>) -> bool {
    forall|i: int| 0 <= i < lines.len() ==> bytes::is_ascii(#[trigger] lines[i])
}

proof fn lemma_variant_is_ascii(a: Seq<Seq<u8>>, b: Seq<Seq<u8>>)
    requires
        lowered_lines(a).to_multiset() == lowered_lines(b).to_multiset(),
        are_ascii(a),
    ensures
        are_ascii(b),
{
    broadcast use vstd::seq_lib::group_to_multiset_ensures;

    let low_a = lowered_lines(a);
    let low_b = lowered_lines(b);
    assert forall|j: int| 0 <= j < b.len() implies bytes::is_ascii(#[trigger] b[j]) by {
        let line = low_b[j];
        assert(low_b.contains(line));
        assert(low_b.to_multiset().count(line) > 0);
        assert(low_a.to_multiset().count(line) > 0);
        assert(low_a.contains(line));
        let i = choose|i: int| 0 <= i < low_a.len() && low_a[i] == line;
        assert(bytes::is_ascii(a[i]));
        lemma_lowered_line(no_fields(), a[i]);
        lemma_lowered_line(no_fields(), b[j]);
    }
}

/// A header is ASCII where its lines are.
proof fn lemma_header_is_ascii(head: Seq<u8>)
    ensures
        bytes::is_ascii(head) == are_ascii(bytes::split_on(head, bytes::crlf())),
{
    let p = |b: u8| b < 0x80;
    if bytes::is_ascii(head) {
        bytes::lemma_split_all(head, bytes::crlf(), p);
    }
    if are_ascii(bytes::split_on(head, bytes::crlf())) {
        bytes::lemma_joined_all(head, bytes::crlf(), p);
    }
}

/// The order of header lines, the case of their names, and lines of other names
/// do not matter: where two headers have the same status line, and the lines of
/// the second are those of the first and unrelated ones, in any order and with
/// their names in any case, both are refused, or both say the same.
pub proof fn law_order_case_and_other_lines_do_not_matter(
    first: Seq<u8>,
    first_end: int,
    extra: Seq<Seq<u8>>,
    second: Seq<u8>,
    second_end: int,
)
    requires
        header_lines(first, first_end)[0] == header_lines(second, second_end)[0],
        is_variant(
            header_lines(first, first_end).drop_first(),
            extra,
            header_lines(second, second_end).drop_first(),
        ),
        forall|i: int| 0 <= i < extra.len() ==> is_unrelated(#[trigger] extra[i]),
    ensures
        header_of(first, first_end) is Ok <==> header_of(second, second_end) is Ok,
        header_of(first, first_end) is Ok ==> header_of(first, first_end) == header_of(
            second,
            second_end,
        ),
{
    let lines = header_lines(first, first_end);
    let others = header_lines(second, second_end);
    let a = lines.drop_first();
    let b = others.drop_first();
    bytes::lemma_split_count(bytes::before(first, first_end - 2), bytes::crlf());
    bytes::lemma_split_count(bytes::before(second, second_end - 2), bytes::crlf());
    lemma_read_lines(a);
    lemma_read_lines(b);
    lemma_unrelated_lines(a, extra);
    lemma_lowered_lines(a + extra);
    lemma_lowered_lines(b);
    lemma_lines_in_any_order(lowered_lines(a + extra), lowered_lines(b));
    lemma_header_is_ascii(bytes::before(first, first_end - 2));
    lemma_header_is_ascii(bytes::before(second, second_end - 2));
    if are_ascii(lines) {
        assert forall|i: int| 0 <= i < (a + extra).len() implies bytes::is_ascii(
            #[trigger] (a + extra)[i],
        ) by {
            if i < a.len() {
                assert(bytes::is_ascii(lines[i + 1]));
            } else {
                assert(is_unrelated(extra[i - a.len()]));
            }
        }
        lemma_variant_is_ascii(a + extra, b);
        assert forall|i: int| 0 <= i < others.len() implies bytes::is_ascii(
            #[trigger] others[i],
        ) by {
            if i > 0 {
                assert(others[i] == b[i - 1]);
            } else {
                assert(bytes::is_ascii(lines[0]));
            }
        }
    }
    if are_ascii(others) {
        assert forall|i: int| 0 <= i < b.len() implies bytes::is_ascii(#[trigger] b[i]) by {
            assert(bytes::is_ascii(others[i + 1]));
        }
        lemma_variant_is_ascii(b, a + extra);
        assert forall|i: int| 0 <= i < lines.len() implies bytes::is_ascii(#[trigger] lines[i]) by {
            if i > 0 {
                assert(lines[i] == (a + extra)[i - 1]);
            } else {
                assert(bytes::is_ascii(others[0]));
            }
        }
    }
}

} // verus!
