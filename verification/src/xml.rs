//! The tokens of a small, closed subset of XML.

use crate::bytes;
use crate::element;
use crate::element::Element;
use crate::error::{HttpError, HttpErrorKind};
use crate::number;
use crate::text;
use vstd::prelude::*;
use vstd::string::*;
use vstd::utf8::*;

verus! {

#[verifier::allow_in_spec]
pub fn protocol(message: &'static str) -> HttpError
    returns
        (HttpError { kind: HttpErrorKind::Protocol, status: None, message }),
{
    HttpError { kind: HttpErrorKind::Protocol, status: None, message }
}

#[verifier::allow_in_spec]
pub fn limit(message: &'static str) -> HttpError
    returns
        (HttpError { kind: HttpErrorKind::Limit, status: None, message }),
{
    HttpError { kind: HttpErrorKind::Limit, status: None, message }
}

/// Whether a scalar value may stand in an XML document.
#[verifier::allow_in_spec]
pub fn is_xml_scalar(c: u32) -> bool
    returns
        c == 0x09 || c == 0x0a || c == 0x0d || (0x20 <= c && c <= 0xd7ff) || (0xe000 <= c && c
            <= 0xfffd) || (0x1_0000 <= c && c <= 0x10_ffff),
{
    c == 0x09 || c == 0x0a || c == 0x0d || (0x20 <= c && c <= 0xd7ff) || (0xe000 <= c && c
        <= 0xfffd) || (0x1_0000 <= c && c <= 0x10_ffff)
}

/// A byte that may stand in an element's name.
#[verifier::allow_in_spec]
pub fn is_name_byte(b: u8) -> bool
    returns
        bytes::is_alphanumeric(b) || b == '-' as u8 || b == '_' as u8,
{
    bytes::is_alphanumeric(b) || b == '-' as u8 || b == '_' as u8
}

/// One to sixty-four letters, digits, hyphens and underscores.
pub open spec fn is_element_name(name: Seq<u8>) -> bool {
    1 <= name.len() <= 64 && bytes::all(name, |b: u8| is_name_byte(b))
}

pub fn valid_element_name(name: &[u8]) -> (result: bool)
    ensures
        result == is_element_name(name@),
{
    !name.is_empty() && name.len() <= 64 && bytes::all_bytes(
        name,
        is_name_byte,
        Ghost(|b: u8| is_name_byte(b)),
    )
}

/// What a document is made of. A reference is the text that it stands for.
#[verifier::ext_equal]
pub enum TokenModel {
    Declaration,
    Start { name: Seq<u8>, attributes: int, self_closing: bool },
    End { name: Seq<u8> },
    Text { text: Seq<u8> },
}

/// A token of a document.
pub enum Token<'a> {
    Declaration,
    Start { name: &'a [u8], attributes: usize, self_closing: bool },
    End { name: &'a [u8] },
    Text { text: &'a [u8] },
    /// The scalar value that a reference stands for.
    Reference { scalar: u32 },
}

impl<'a> View for Token<'a> {
    type V = TokenModel;

    open spec fn view(&self) -> TokenModel {
        match *self {
            Token::Declaration => TokenModel::Declaration,
            Token::Start { name, attributes, self_closing } => TokenModel::Start {
                name: name@,
                attributes: attributes as int,
                self_closing,
            },
            Token::End { name } => TokenModel::End { name: name@ },
            Token::Text { text } => TokenModel::Text { text: text@ },
            Token::Reference { scalar } => TokenModel::Text { text: encode_scalar(scalar) },
        }
    }
}

impl<'a> Token<'a> {
    /// Whether the text that the token carries is one.
    pub open spec fn wf(&self) -> bool {
        match *self {
            Token::Text { text } => valid_utf8(text@),
            Token::Reference { scalar } => is_scalar(scalar),
            _ => true,
        }
    }
}

/// The first index of `pattern`, where it is at most `most`.
pub open spec fn index_within(s: Seq<u8>, pattern: Seq<u8>, most: int) -> Option<int> {
    match bytes::first_index(s, pattern) {
        Some(i) if i <= most => Some(i),
        _ => None,
    }
}

fn find_within(s: &[u8], pattern: &[u8], most: usize) -> (result: Option<usize>)
    ensures
        match result {
            Some(i) => index_within(s@, pattern@, most as int) == Some(i as int) && bytes::first_at(
                s@,
                pattern@,
                i as int,
            ) && i + pattern@.len() <= s.len(),
            None => index_within(s@, pattern@, most as int) is None,
        },
{
    match bytes::find(s, pattern) {
        Some(i) => if i <= most {
            Some(i)
        } else {
            None
        },
        None => None,
    }
}

/// The declarations that are understood.
pub open spec fn is_declaration(s: Seq<u8>) -> bool {
    ||| s == "<?xml version=\"1.0\"?>".spec_bytes()
    ||| s == "<?xml version=\"1.0\" encoding=\"UTF-8\"?>".spec_bytes()
    ||| s == "<?xml version=\"1.0\" encoding=\"utf-8\"?>".spec_bytes()
    ||| s == "<?xml version='1.0'?>".spec_bytes()
    ||| s == "<?xml version='1.0' encoding='UTF-8'?>".spec_bytes()
    ||| s == "<?xml version='1.0' encoding='utf-8'?>".spec_bytes()
}

/// The declaration at the start of a document, and its length.
pub open spec fn declaration_at(rest: Seq<u8>, cursor: int) -> Result<
    (TokenModel, int),
    HttpError,
> {
    if cursor != 0 {
        Err(protocol("S3 list XML declaration is misplaced"))
    } else {
        match index_within(rest, "?>".spec_bytes(), 96) {
            None => Err(protocol("S3 list XML declaration is malformed")),
            Some(end) => if is_declaration(bytes::before(rest, end + 2)) {
                Ok((TokenModel::Declaration, end + 2))
            } else {
                Err(protocol("S3 list XML uses an unsupported declaration"))
            },
        }
    }
}

/// The end of an element, and its length.
pub open spec fn end_at(rest: Seq<u8>) -> Result<(TokenModel, int), HttpError> {
    match index_within(rest, seq!['>' as u8], 66) {
        Some(end) if is_element_name(rest.subrange(2, end)) => Ok(
            (TokenModel::End { name: rest.subrange(2, end) }, end + 1),
        ),
        _ => Err(protocol("S3 list XML end element is malformed")),
    }
}

/// What stands between the angle brackets of a start tag, without the slash of
/// an empty element and the blanks before it.
pub open spec fn tag_content(inner: Seq<u8>) -> Seq<u8> {
    if inner.len() > 0 && inner.last() == '/' as u8 {
        bytes::trim_end(inner.drop_last(), |b: u8| bytes::is_blank(b))
    } else {
        inner
    }
}

#[verifier::allow_in_spec]
pub fn is_not_whitespace(b: u8) -> bool
    returns
        !bytes::is_whitespace(b),
{
    !bytes::is_whitespace(b)
}

/// The name that a tag begins with.
pub open spec fn tag_name(content: Seq<u8>) -> Seq<u8> {
    bytes::before(content, bytes::span(content, |b: u8| is_not_whitespace(b)))
}

/// What follows the name in a tag.
pub open spec fn tag_attributes(content: Seq<u8>) -> Seq<u8> {
    bytes::after(content, bytes::span(content, |b: u8| is_not_whitespace(b)))
}

/// The one attribute that is understood, in either kind of quotes.
pub open spec fn is_namespace(attributes: Seq<u8>) -> bool {
    ||| attributes == " xmlns=\"http://s3.amazonaws.com/doc/2006-03-01/\"".spec_bytes()
    ||| attributes == " xmlns='http://s3.amazonaws.com/doc/2006-03-01/'".spec_bytes()
}

/// The start of an element, and its length. Only the root may name its
/// namespace, and there are no other attributes.
pub open spec fn start_at(rest: Seq<u8>) -> Result<(TokenModel, int), HttpError> {
    match index_within(rest, seq!['>' as u8], 256) {
        None => Err(protocol("S3 list XML start element is malformed")),
        Some(end) => {
            let inner = rest.subrange(1, end);
            let self_closing = inner.len() > 0 && inner.last() == '/' as u8;
            let name = tag_name(tag_content(inner));
            let attributes = tag_attributes(tag_content(inner));
            if !is_element_name(name) {
                Err(protocol("S3 list XML start element is malformed"))
            } else if attributes.len() == 0 {
                Ok((TokenModel::Start { name, attributes: 0, self_closing }, end + 1))
            } else if name == element::element_name(Element::Root) && is_namespace(attributes) {
                Ok((TokenModel::Start { name, attributes: 1, self_closing }, end + 1))
            } else {
                Err(protocol("S3 list XML contains unexpected attributes"))
            }
        },
    }
}

/// The scalar value that a reference stands for: one of the five predefined
/// entities, or a number in decimal or hexadecimal digits.
pub open spec fn referred(reference: Seq<u8>) -> Option<u32> {
    if reference == "amp".spec_bytes() {
        Some('&' as u32)
    } else if reference == "lt".spec_bytes() {
        Some('<' as u32)
    } else if reference == "gt".spec_bytes() {
        Some('>' as u32)
    } else if reference == "apos".spec_bytes() {
        Some('\'' as u32)
    } else if reference == "quot".spec_bytes() {
        Some('"' as u32)
    } else {
        let scalar = match bytes::stripped(reference, "#x".spec_bytes()) {
            Some(digits) => number::parsed(number::unsigned(digits), 16, u32::MAX as nat),
            None => match bytes::stripped(reference, "#".spec_bytes()) {
                Some(digits) => number::parsed(number::unsigned(digits), 10, u32::MAX as nat),
                None => None,
            },
        };
        match scalar {
            Some(c) if is_xml_scalar(c as u32) => Some(c as u32),
            _ => None,
        }
    }
}

/// A reference, and its length.
pub open spec fn reference_at(rest: Seq<u8>) -> Result<(TokenModel, int), HttpError> {
    match index_within(rest, seq![';' as u8], 16) {
        Some(end) if end >= 2 => match referred(rest.subrange(1, end)) {
            Some(scalar) => Ok((TokenModel::Text { text: encode_scalar(scalar) }, end + 1)),
            None => Err(protocol("S3 list XML contains an unsupported entity reference")),
        },
        _ => Err(protocol("S3 list XML entity reference is malformed")),
    }
}

/// A byte that begins neither a tag nor a reference.
#[verifier::allow_in_spec]
pub fn is_text_byte(b: u8) -> bool
    returns
        b != '<' as u8 && b != '&' as u8,
{
    b != '<' as u8 && b != '&' as u8
}

/// A run of text, and its length.
pub open spec fn text_at(rest: Seq<u8>) -> Result<(TokenModel, int), HttpError> {
    let length = bytes::span(rest, |b: u8| is_text_byte(b));
    let text = bytes::before(rest, length);
    if bytes::contains(text, "]]>".spec_bytes()) {
        Err(protocol("S3 list XML contains unsupported markup"))
    } else {
        Ok((TokenModel::Text { text }, length))
    }
}

/// The token that stands first in `rest`, which starts at `cursor` in its
/// document, and its length. There are no document types, comments, character
/// data sections or processing instructions.
pub open spec fn token_at(rest: Seq<u8>, cursor: int) -> Result<(TokenModel, int), HttpError> {
    if bytes::starts_with(rest, "<?xml".spec_bytes()) {
        declaration_at(rest, cursor)
    } else if bytes::starts_with(rest, "<!".spec_bytes()) || bytes::starts_with(
        rest,
        "<?".spec_bytes(),
    ) {
        Err(protocol("S3 list XML contains unsupported markup"))
    } else if bytes::starts_with(rest, "</".spec_bytes()) {
        end_at(rest)
    } else if bytes::starts_with(rest, "<".spec_bytes()) {
        start_at(rest)
    } else if bytes::starts_with(rest, "&".spec_bytes()) {
        reference_at(rest)
    } else {
        text_at(rest)
    }
}

/// A token is at least one byte long, and lies in the document.
pub proof fn lemma_token_length(rest: Seq<u8>, cursor: int)
    requires
        rest.len() > 0,
    ensures
        token_at(rest, cursor) matches Ok((_, length)) ==> 0 < length <= rest.len(),
{
    reveal_strlit("?>");
    is_ascii_chars_encode_utf8("?>"@);
    reveal_strlit("<");
    is_ascii_chars_encode_utf8("<"@);
    reveal_strlit("&");
    is_ascii_chars_encode_utf8("&"@);
    bytes::lemma_first_index_is_first(rest, "?>".spec_bytes());
    bytes::lemma_first_index_is_first(rest, seq!['>' as u8]);
    bytes::lemma_first_index_is_first(rest, seq![';' as u8]);
    bytes::lemma_span(rest, |b: u8| is_text_byte(b));
    assert(rest[0] == '<' as u8 ==> rest.subrange(0, 1) =~= "<".spec_bytes());
    assert(rest[0] == '&' as u8 ==> rest.subrange(0, 1) =~= "&".spec_bytes());
}

/// Whether a token and its length are those that the model gives.
pub open spec fn lexes(
    result: Result<(Token, usize), HttpError>,
    model: Result<(TokenModel, int), HttpError>,
    rest: Seq<u8>,
) -> bool {
    match (result, model) {
        (Ok((token, length)), Ok((expected, count))) => {
            &&& token@ == expected
            &&& length == count
            &&& 0 < length <= rest.len()
            &&& token.wf()
            &&& valid_utf8(bytes::after(rest, count))
        },
        (Err(error), Err(expected)) => error == expected,
        _ => false,
    }
}

fn consume_declaration<'a>(remaining: &'a [u8], cursor: usize) -> (result: Result<
    (Token<'a>, usize),
    HttpError,
>)
    requires
        valid_utf8(remaining@),
    ensures
        lexes(result, declaration_at(remaining@, cursor as int), remaining@),
{
    if cursor != 0 {
        return Err(protocol("S3 list XML declaration is misplaced"));
    }
    proof {
        reveal_strlit("?>");
        is_ascii_chars_encode_utf8("?>"@);
    }
    match find_within(remaining, "?>".as_bytes(), 96) {
        None => Err(protocol("S3 list XML declaration is malformed")),
        Some(end) => {
            let declaration = &remaining[0..end + 2];
            if !(bytes::equal(declaration, "<?xml version=\"1.0\"?>".as_bytes()) || bytes::equal(
                declaration,
                "<?xml version=\"1.0\" encoding=\"UTF-8\"?>".as_bytes(),
            ) || bytes::equal(
                declaration,
                "<?xml version=\"1.0\" encoding=\"utf-8\"?>".as_bytes(),
            ) || bytes::equal(declaration, "<?xml version='1.0'?>".as_bytes()) || bytes::equal(
                declaration,
                "<?xml version='1.0' encoding='UTF-8'?>".as_bytes(),
            ) || bytes::equal(
                declaration,
                "<?xml version='1.0' encoding='utf-8'?>".as_bytes(),
            )) {
                return Err(protocol("S3 list XML uses an unsupported declaration"));
            }
            proof {
                text::lemma_cut_behind_prefix(remaining@, "?>".spec_bytes(), end as int);
            }
            Ok((Token::Declaration, end + 2))
        },
    }
}

fn consume_end<'a>(remaining: &'a [u8]) -> (result: Result<(Token<'a>, usize), HttpError>)
    requires
        valid_utf8(remaining@),
        remaining@.len() >= 2,
        remaining@[0] == '<' as u8,
        remaining@[1] == '/' as u8,
    ensures
        lexes(result, end_at(remaining@), remaining@),
{
    let mark: [u8; 1] = ['>' as u8];
    assert(mark@ =~= seq!['>' as u8]);
    match find_within(remaining, &mark, 66) {
        None => Err(protocol("S3 list XML end element is malformed")),
        Some(end) => {
            assert(remaining@.subrange(end as int, end + 1)[0] == '>' as u8);
            let name = &remaining[2..end];
            if !valid_element_name(name) {
                return Err(protocol("S3 list XML end element is malformed"));
            }
            proof {
                text::lemma_cut_behind_ascii(remaining@, end as int);
            }
            Ok((Token::End { name }, end + 1))
        },
    }
}

fn consume_start<'a>(remaining: &'a [u8]) -> (result: Result<(Token<'a>, usize), HttpError>)
    requires
        valid_utf8(remaining@),
        remaining@.len() >= 1,
        remaining@[0] == '<' as u8,
    ensures
        lexes(result, start_at(remaining@), remaining@),
{
    let mark: [u8; 1] = ['>' as u8];
    assert(mark@ =~= seq!['>' as u8]);
    let end: usize = match find_within(remaining, &mark, 256) {
        None => {
            return Err(protocol("S3 list XML start element is malformed"));
        },
        Some(end) => end,
    };
    assert(remaining@.subrange(end as int, end + 1)[0] == '>' as u8);
    let inner: &'a [u8] = &remaining[1..end];
    let self_closing = !inner.is_empty() && inner[inner.len() - 1] == '/' as u8;
    let content: &'a [u8] = if self_closing {
        let opened: &'a [u8] = &inner[0..inner.len() - 1];
        assert(opened@ =~= inner@.drop_last());
        bytes::trim_end_blanks(opened)
    } else {
        inner
    };
    let name_end: usize = bytes::span_bytes(
        content,
        is_not_whitespace,
        Ghost(|b: u8| is_not_whitespace(b)),
    );
    let name: &'a [u8] = &content[0..name_end];
    if !valid_element_name(name) {
        return Err(protocol("S3 list XML start element is malformed"));
    }
    let attributes = &content[name_end..content.len()];
    let attribute_count: usize = if attributes.is_empty() {
        0
    } else if bytes::equal(name, Element::Root.name()) && (bytes::equal(
        attributes,
        " xmlns=\"http://s3.amazonaws.com/doc/2006-03-01/\"".as_bytes(),
    ) || bytes::equal(
        attributes,
        " xmlns='http://s3.amazonaws.com/doc/2006-03-01/'".as_bytes(),
    )) {
        1
    } else {
        return Err(protocol("S3 list XML contains unexpected attributes"));
    };
    proof {
        text::lemma_cut_behind_ascii(remaining@, end as int);
    }
    Ok((Token::Start { name, attributes: attribute_count, self_closing }, end + 1))
}

/// The scalar value that a reference stands for.
fn resolve_reference(reference: &[u8]) -> (result: Option<u32>)
    ensures
        result == referred(reference@),
{
    if bytes::equal(reference, "amp".as_bytes()) {
        Some('&' as u32)
    } else if bytes::equal(reference, "lt".as_bytes()) {
        Some('<' as u32)
    } else if bytes::equal(reference, "gt".as_bytes()) {
        Some('>' as u32)
    } else if bytes::equal(reference, "apos".as_bytes()) {
        Some('\'' as u32)
    } else if bytes::equal(reference, "quot".as_bytes()) {
        Some('"' as u32)
    } else {
        let scalar: Option<u64> = match bytes::strip_prefix(reference, "#x".as_bytes()) {
            Some(digits) => number::parse_signed(digits, 16, u32::MAX as u64),
            None => match bytes::strip_prefix(reference, "#".as_bytes()) {
                Some(digits) => number::parse_signed(digits, 10, u32::MAX as u64),
                None => None,
            },
        };
        match scalar {
            Some(c) => if is_xml_scalar(c as u32) {
                Some(c as u32)
            } else {
                None
            },
            None => None,
        }
    }
}

fn consume_reference<'a>(remaining: &'a [u8]) -> (result: Result<(Token<'a>, usize), HttpError>)
    requires
        valid_utf8(remaining@),
    ensures
        lexes(result, reference_at(remaining@), remaining@),
{
    let mark: [u8; 1] = [';' as u8];
    assert(mark@ =~= seq![';' as u8]);
    match find_within(remaining, &mark, 16) {
        None => Err(protocol("S3 list XML entity reference is malformed")),
        Some(end) => {
            if end < 2 {
                return Err(protocol("S3 list XML entity reference is malformed"));
            }
            assert(remaining@.subrange(end as int, end + 1)[0] == ';' as u8);
            proof {
                text::lemma_cut_behind_ascii(remaining@, end as int);
            }
            match resolve_reference(&remaining[1..end]) {
                Some(scalar) => Ok((Token::Reference { scalar }, end + 1)),
                None => Err(protocol("S3 list XML contains an unsupported entity reference")),
            }
        },
    }
}

fn consume_text<'a>(remaining: &'a [u8]) -> (result: Result<(Token<'a>, usize), HttpError>)
    requires
        valid_utf8(remaining@),
        remaining@.len() > 0,
        is_text_byte(remaining@[0]),
    ensures
        lexes(result, text_at(remaining@), remaining@),
{
    let next_markup: usize = bytes::span_bytes(
        remaining,
        is_text_byte,
        Ghost(|b: u8| is_text_byte(b)),
    );
    let text: &'a [u8] = &remaining[0..next_markup];
    if bytes::find(text, "]]>".as_bytes()).is_some() {
        return Err(protocol("S3 list XML contains unsupported markup"));
    }
    proof {
        bytes::lemma_span(remaining@, |b: u8| is_text_byte(b));
        if next_markup < remaining@.len() {
            text::lemma_cut_behind_ascii(remaining@, next_markup as int);
        } else {
            assert(text@ =~= remaining@);
            assert(bytes::after(remaining@, next_markup as int) =~= Seq::<u8>::empty());
        }
    }
    Ok((Token::Text { text }, next_markup))
}

/// Reads the token that stands first in `remaining`, which starts at `cursor`
/// in its document.
pub(crate) fn next_token<'a>(remaining: &'a [u8], cursor: usize) -> (result: Result<
    (Token<'a>, usize),
    HttpError,
>)
    requires
        valid_utf8(remaining@),
        remaining@.len() > 0,
    ensures
        lexes(result, token_at(remaining@, cursor as int), remaining@),
{
    proof {
        reveal_strlit("</");
        is_ascii_chars_encode_utf8("</"@);
        reveal_strlit("<");
        is_ascii_chars_encode_utf8("<"@);
        reveal_strlit("&");
        is_ascii_chars_encode_utf8("&"@);
        if bytes::starts_with(remaining@, "</".spec_bytes()) {
            assert(remaining@.subrange(0, 2)[0] == "</".spec_bytes()[0]);
            assert(remaining@.subrange(0, 2)[1] == "</".spec_bytes()[1]);
        }
        if bytes::starts_with(remaining@, "<".spec_bytes()) {
            assert(remaining@.subrange(0, 1)[0] == "<".spec_bytes()[0]);
        }
        assert(remaining@[0] == '<' as u8 ==> remaining@.subrange(0, 1) =~= "<".spec_bytes());
        assert(remaining@[0] == '&' as u8 ==> remaining@.subrange(0, 1) =~= "&".spec_bytes());
    }
    if bytes::occurs(remaining, "<?xml".as_bytes(), 0) {
        return consume_declaration(remaining, cursor);
    }
    if bytes::occurs(remaining, "<!".as_bytes(), 0) || bytes::occurs(
        remaining,
        "<?".as_bytes(),
        0,
    ) {
        return Err(protocol("S3 list XML contains unsupported markup"));
    }
    if bytes::occurs(remaining, "</".as_bytes(), 0) {
        return consume_end(remaining);
    }
    if bytes::occurs(remaining, "<".as_bytes(), 0) {
        return consume_start(remaining);
    }
    if bytes::occurs(remaining, "&".as_bytes(), 0) {
        return consume_reference(remaining);
    }
    consume_text(remaining)
}

/// Whether nothing from index `start` on begins a tag or a reference.
pub open spec fn is_plain_from(s: Seq<u8>, start: int) -> bool {
    forall|i: int| start <= i < s.len() ==> is_text_byte(#[trigger] s[i])
}

proof fn lemma_declarations_are_plain(s: Seq<u8>)
    requires
        is_declaration(s),
    ensures
        is_plain_from(s, 1),
{
    if s == "<?xml version=\"1.0\"?>".spec_bytes() {
        reveal_strlit("<?xml version=\"1.0\"?>");
        is_ascii_chars_encode_utf8("<?xml version=\"1.0\"?>"@);
    } else if s == "<?xml version=\"1.0\" encoding=\"UTF-8\"?>".spec_bytes() {
        reveal_strlit("<?xml version=\"1.0\" encoding=\"UTF-8\"?>");
        is_ascii_chars_encode_utf8("<?xml version=\"1.0\" encoding=\"UTF-8\"?>"@);
    } else if s == "<?xml version=\"1.0\" encoding=\"utf-8\"?>".spec_bytes() {
        reveal_strlit("<?xml version=\"1.0\" encoding=\"utf-8\"?>");
        is_ascii_chars_encode_utf8("<?xml version=\"1.0\" encoding=\"utf-8\"?>"@);
    } else if s == "<?xml version='1.0'?>".spec_bytes() {
        reveal_strlit("<?xml version='1.0'?>");
        is_ascii_chars_encode_utf8("<?xml version='1.0'?>"@);
    } else if s == "<?xml version='1.0' encoding='UTF-8'?>".spec_bytes() {
        reveal_strlit("<?xml version='1.0' encoding='UTF-8'?>");
        is_ascii_chars_encode_utf8("<?xml version='1.0' encoding='UTF-8'?>"@);
    } else {
        reveal_strlit("<?xml version='1.0' encoding='utf-8'?>");
        is_ascii_chars_encode_utf8("<?xml version='1.0' encoding='utf-8'?>"@);
    }
}

proof fn lemma_namespaces_are_plain(s: Seq<u8>)
    requires
        is_namespace(s),
    ensures
        is_plain_from(s, 0),
{
    if s == " xmlns=\"http://s3.amazonaws.com/doc/2006-03-01/\"".spec_bytes() {
        reveal_strlit(" xmlns=\"http://s3.amazonaws.com/doc/2006-03-01/\"");
        is_ascii_chars_encode_utf8(" xmlns=\"http://s3.amazonaws.com/doc/2006-03-01/\""@);
    } else {
        reveal_strlit(" xmlns='http://s3.amazonaws.com/doc/2006-03-01/'");
        is_ascii_chars_encode_utf8(" xmlns='http://s3.amazonaws.com/doc/2006-03-01/'"@);
    }
}

proof fn lemma_end_is_plain(rest: Seq<u8>)
    requires
        bytes::starts_with(rest, "</".spec_bytes()),
        end_at(rest) is Ok,
    ensures
        is_plain_from(bytes::before(rest, end_at(rest)->Ok_0.1), 1),
{
    reveal_strlit("</");
    is_ascii_chars_encode_utf8("</"@);
    let mark = seq!['>' as u8];
    bytes::lemma_first_index_is_first(rest, mark);
    let end = bytes::first_index(rest, mark)->0;
    let name = rest.subrange(2, end);
    let tag = bytes::before(rest, end + 1);
    assert(rest.subrange(0, 2)[1] == "</".spec_bytes()[1]);
    assert(rest.subrange(end, end + 1)[0] == mark[0]);
    assert forall|i: int| 1 <= i < tag.len() implies is_text_byte(#[trigger] tag[i]) by {
        if 2 <= i < end {
            assert(is_name_byte(name[i - 2]));
        } else if i == end {
            assert(tag[i] == rest[end]);
        }
    }
}

proof fn lemma_start_is_plain(rest: Seq<u8>)
    requires
        bytes::starts_with(rest, "<".spec_bytes()),
        start_at(rest) is Ok,
    ensures
        is_plain_from(bytes::before(rest, start_at(rest)->Ok_0.1), 1),
{
    reveal_strlit("<");
    is_ascii_chars_encode_utf8("<"@);
    let mark = seq!['>' as u8];
    bytes::lemma_first_index_is_first(rest, mark);
    let end = bytes::first_index(rest, mark)->0;
    let inner = rest.subrange(1, end);
    let content = tag_content(inner);
    let n = bytes::span(content, |b: u8| is_not_whitespace(b));
    let name = tag_name(content);
    let attributes = tag_attributes(content);
    let tag = bytes::before(rest, end + 1);
    let blank = |b: u8| bytes::is_blank(b);
    assert(rest.subrange(0, 1)[0] == "<".spec_bytes()[0]);
    assert(rest.subrange(end, end + 1)[0] == mark[0]);
    bytes::lemma_span(content, |b: u8| is_not_whitespace(b));
    if attributes.len() > 0 {
        lemma_namespaces_are_plain(attributes);
    }
    assert(is_plain_from(content, 0)) by {
        assert forall|i: int| 0 <= i < content.len() implies is_text_byte(#[trigger] content[i]) by {
            if i < n {
                assert(is_name_byte(name[i]));
            } else {
                assert(is_text_byte(attributes[i - n]));
            }
        }
    }
    assert(is_plain_from(inner, 0)) by {
        if inner.len() > 0 && inner.last() == '/' as u8 {
            let opened = inner.drop_last();
            bytes::lemma_trim_end_cuts(opened, blank);
            assert forall|i: int| 0 <= i < inner.len() implies is_text_byte(#[trigger] inner[i]) by {
                if i < content.len() {
                    assert(content[i] == opened[i]);
                } else if i < opened.len() {
                    assert(bytes::is_blank(bytes::after(opened, content.len() as int)[i
                        - content.len()]));
                }
            }
        }
    }
    assert forall|i: int| 1 <= i < tag.len() implies is_text_byte(#[trigger] tag[i]) by {
        if i < end {
            assert(tag[i] == inner[i - 1]);
        } else {
            assert(tag[i] == rest[end]);
        }
    }
}

/// The digits of a number, with or without a sign, are plain.
proof fn lemma_digits_are_plain(s: Seq<u8>, radix: nat)
    requires
        radix <= 16,
        number::parsed(number::unsigned(s), radix, u32::MAX as nat) is Some,
    ensures
        is_plain_from(s, 0),
{
    let digits = number::unsigned(s);
    assert forall|i: int| 0 <= i < s.len() implies is_text_byte(#[trigger] s[i]) by {
        if s[0] == '+' as u8 {
            if i > 0 {
                assert(number::is_radix_digit(digits[i - 1], radix));
            }
        } else {
            assert(number::is_radix_digit(digits[i], radix));
        }
    }
}

proof fn lemma_referred_is_plain(reference: Seq<u8>)
    requires
        referred(reference) is Some,
    ensures
        is_plain_from(reference, 0),
{
    reveal_strlit("amp");
    is_ascii_chars_encode_utf8("amp"@);
    reveal_strlit("lt");
    is_ascii_chars_encode_utf8("lt"@);
    reveal_strlit("gt");
    is_ascii_chars_encode_utf8("gt"@);
    reveal_strlit("apos");
    is_ascii_chars_encode_utf8("apos"@);
    reveal_strlit("quot");
    is_ascii_chars_encode_utf8("quot"@);
    if reference != "amp".spec_bytes() && reference != "lt".spec_bytes() && reference
        != "gt".spec_bytes() && reference != "apos".spec_bytes() && reference
        != "quot".spec_bytes() {
        reveal_strlit("#x");
        is_ascii_chars_encode_utf8("#x"@);
        reveal_strlit("#");
        is_ascii_chars_encode_utf8("#"@);
        let (width, radix) = if bytes::starts_with(reference, "#x".spec_bytes()) {
            (2int, 16nat)
        } else {
            (1int, 10nat)
        };
        let digits = bytes::after(reference, width);
        lemma_digits_are_plain(digits, radix);
        assert forall|i: int| 0 <= i < reference.len() implies is_text_byte(
            #[trigger] reference[i],
        ) by {
            if i < width {
                if width == 2 {
                    assert(reference.subrange(0, 2)[i] == "#x".spec_bytes()[i]);
                } else {
                    assert(reference.subrange(0, 1)[i] == "#".spec_bytes()[i]);
                }
            } else {
                assert(digits[i - width] == reference[i]);
            }
        }
    }
}

proof fn lemma_reference_is_plain(rest: Seq<u8>)
    requires
        reference_at(rest) is Ok,
    ensures
        is_plain_from(bytes::before(rest, reference_at(rest)->Ok_0.1), 1),
{
    let mark = seq![';' as u8];
    bytes::lemma_first_index_is_first(rest, mark);
    let end = bytes::first_index(rest, mark)->0;
    let reference = rest.subrange(1, end);
    let all = bytes::before(rest, end + 1);
    lemma_referred_is_plain(reference);
    assert(rest.subrange(end, end + 1)[0] == mark[0]);
    assert forall|i: int| 1 <= i < all.len() implies is_text_byte(#[trigger] all[i]) by {
        if i < end {
            assert(all[i] == reference[i - 1]);
        } else {
            assert(all[i] == rest[end]);
        }
    }
}

/// Only the first byte of a token can begin a tag or a reference.
pub proof fn lemma_token_is_plain(rest: Seq<u8>, cursor: int)
    requires
        token_at(rest, cursor) is Ok,
    ensures
        is_plain_from(bytes::before(rest, token_at(rest, cursor)->Ok_0.1), 1),
{
    if bytes::starts_with(rest, "<?xml".spec_bytes()) {
        lemma_declarations_are_plain(bytes::before(rest, token_at(rest, cursor)->Ok_0.1));
    } else if bytes::starts_with(rest, "</".spec_bytes()) {
        lemma_end_is_plain(rest);
    } else if bytes::starts_with(rest, "<".spec_bytes()) {
        lemma_start_is_plain(rest);
    } else if bytes::starts_with(rest, "&".spec_bytes()) {
        lemma_reference_is_plain(rest);
    } else {
        let text = |b: u8| is_text_byte(b);
        bytes::lemma_span(rest, text);
        let run = bytes::before(rest, bytes::span(rest, text));
        assert forall|i: int| 1 <= i < run.len() implies is_text_byte(#[trigger] run[i]) by {
            assert(text(run[i]));
        }
    }
}

} // verus!
