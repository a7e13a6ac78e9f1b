//! Reading one page of a ListObjectsV2 listing.

use crate::bytes;
use crate::element;
use crate::element::Element;
use crate::error;
use crate::error::{HttpError, HttpErrorKind};
use crate::header;
use crate::number;
use crate::text;
use crate::xml;
use crate::xml::Token;
use vstd::prelude::*;
use vstd::string::*;
use vstd::utf8::*;

verus! {

pub const MAX_LIST_KEYS: u32 = 1_000;

pub const MAX_LIST_BODY_BYTES: usize = 4 * 1024 * 1024;

pub const MAX_LIST_XML_DEPTH: usize = 3;

pub const MAX_LIST_XML_EVENTS: usize = 32_768;

pub const MAX_LIST_XML_TEXT_BYTES: usize = 3 * 1024 * 1024;

/// An object that a page lists.
#[derive(Clone, Debug, Eq, PartialEq)]
pub struct ParsedListedObject {
    pub key: String,
    pub size: u64,
    pub etag: Option<String>,
    pub last_modified: Option<String>,
}

/// One page of a listing.
#[derive(Clone, Debug, Eq, PartialEq)]
pub struct ParsedListPage {
    pub objects: Vec<ParsedListedObject>,
    pub is_truncated: bool,
    pub next_continuation_token: Option<String>,
}

/// The model of [`ParsedListedObject`], with texts as their UTF-8 bytes.
#[verifier::ext_equal]
pub struct ObjectModel {
    pub key: Seq<u8>,
    pub size: u64,
    pub etag: Option<Seq<u8>>,
    pub last_modified: Option<Seq<u8>>,
}

impl View for ParsedListedObject {
    type V = ObjectModel;

    open spec fn view(&self) -> ObjectModel {
        ObjectModel {
            key: encode_utf8(self.key@),
            size: self.size,
            etag: header::encoded(self.etag),
            last_modified: header::encoded(self.last_modified),
        }
    }
}

/// The models of a number of objects.
pub open spec fn object_models(objects: Seq<ParsedListedObject>) -> Seq<ObjectModel> {
    Seq::new(objects.len(), |i: int| objects[i]@)
}

/// The model of [`ParsedListPage`].
#[verifier::ext_equal]
pub struct PageModel {
    pub objects: Seq<ObjectModel>,
    pub is_truncated: bool,
    pub next_continuation_token: Option<Seq<u8>>,
}

impl View for ParsedListPage {
    type V = PageModel;

    open spec fn view(&self) -> PageModel {
        PageModel {
            objects: object_models(self.objects@),
            is_truncated: self.is_truncated,
            next_continuation_token: header::encoded(self.next_continuation_token),
        }
    }
}

/// What was read of an object so far.
#[verifier::ext_equal]
pub struct PartialObject {
    pub key: Option<Seq<u8>>,
    pub size: Option<u64>,
    pub etag: Option<Seq<u8>>,
    pub last_modified: Option<Seq<u8>>,
    pub storage_class_seen: bool,
}

pub open spec fn no_object_fields() -> PartialObject {
    PartialObject {
        key: None,
        size: None,
        etag: None,
        last_modified: None,
        storage_class_seen: false,
    }
}

/// What was read of a page so far: its fields, the objects that are complete,
/// the object and the text that are being read, and the open elements.
#[verifier::ext_equal]
pub struct PageState {
    pub name: Option<Seq<u8>>,
    pub prefix: Option<Seq<u8>>,
    pub key_count: Option<u32>,
    pub max_keys: Option<u32>,
    pub is_truncated: Option<bool>,
    pub continuation_token: Option<Seq<u8>>,
    pub next_continuation_token: Option<Seq<u8>>,
    pub objects: Seq<ObjectModel>,
    pub object: Option<PartialObject>,
    pub stack: Seq<Element>,
    pub text: Seq<u8>,
    pub total_text_bytes: int,
    pub events: int,
    pub root_closed: bool,
}

/// Nothing was read yet.
pub open spec fn empty_page() -> PageState {
    PageState {
        name: None,
        prefix: None,
        key_count: None,
        max_keys: None,
        is_truncated: None,
        continuation_token: None,
        next_continuation_token: None,
        objects: Seq::empty(),
        object: None,
        stack: Seq::empty(),
        text: Seq::empty(),
        total_text_bytes: 0,
        events: 0,
        root_closed: false,
    }
}

/// A field that may be set only once, after it was set.
pub open spec fn set_field<T>(slot: Option<T>, value: T) -> Result<Option<T>, HttpError> {
    if slot is Some {
        Err(xml::protocol("S3 list XML contains a duplicate field"))
    } else {
        Ok(Some(value))
    }
}

/// The number that a field's text gives: decimal digits without a sign or
/// leading zeros.
pub open spec fn field_number(text: Seq<u8>, max: nat) -> Result<nat, HttpError> {
    if text.len() == 0 || !bytes::all(text, |b: u8| bytes::is_digit(b)) || (text.len() > 1 && text[0]
        == '0' as u8) {
        Err(xml::protocol("S3 list XML contains an invalid integer"))
    } else if number::value(text, 10) > max {
        Err(xml::protocol("S3 list XML integer is out of range"))
    } else {
        Ok(number::value(text, 10))
    }
}

/// The page after one more event was counted.
pub open spec fn with_event(page: PageState) -> Result<PageState, HttpError> {
    if page.events + 1 > usize::MAX {
        Err(xml::limit("S3 list XML event count overflowed"))
    } else if page.events + 1 > MAX_LIST_XML_EVENTS {
        Err(xml::limit("S3 list XML exceeds the event limit"))
    } else {
        Ok(PageState { events: page.events + 1, ..page })
    }
}

/// The innermost open element.
pub open spec fn open_element(page: PageState) -> Option<Element> {
    if page.stack.len() == 0 {
        None
    } else {
        Some(page.stack.last())
    }
}

/// The page after the start of an element.
pub open spec fn with_start(page: PageState, name: Seq<u8>, attributes: int) -> Result<
    PageState,
    HttpError,
> {
    if page.root_closed {
        Err(xml::protocol("S3 list XML contains data after the root"))
    } else {
        match element::child(open_element(page), name) {
            Err(error) => Err(error),
            Ok(element) => if attributes != 0 && element != Element::Root {
                Err(xml::protocol("S3 list XML contains unexpected attributes"))
            } else if page.stack.len() >= MAX_LIST_XML_DEPTH {
                Err(xml::limit("S3 list XML exceeds the nesting limit"))
            } else if element == Element::Contents && page.object is Some {
                Err(xml::protocol("S3 list XML contains nested objects"))
            } else {
                Ok(
                    PageState {
                        object: if element == Element::Contents {
                            Some(no_object_fields())
                        } else {
                            page.object
                        },
                        stack: page.stack.push(element),
                        text: Seq::empty(),
                        ..page
                    },
                )
            },
        }
    }
}

/// The page after a run of text. Outside the elements that hold text there may
/// be white space only, which is dropped.
pub open spec fn with_text(page: PageState, value: Seq<u8>) -> Result<PageState, HttpError> {
    let total = page.total_text_bytes + value.len();
    let counted = PageState { total_text_bytes: total, ..page };
    let blank = bytes::all(value, |b: u8| bytes::is_whitespace(b));
    if total > usize::MAX {
        Err(xml::limit("S3 list XML text count overflowed"))
    } else if total > MAX_LIST_XML_TEXT_BYTES {
        Err(xml::limit("S3 list XML exceeds the text byte limit"))
    } else {
        match open_element(page) {
            None => if blank {
                Ok(counted)
            } else {
                Err(xml::protocol("S3 list XML contains text outside the root"))
            },
            Some(element) => if !element.is_scalar() {
                if blank {
                    Ok(counted)
                } else {
                    Err(xml::protocol("S3 list XML contains text in a container"))
                }
            } else if page.text.len() + value.len() > element.text_limit() {
                Err(xml::limit("S3 list XML field exceeds its byte limit"))
            } else {
                Ok(PageState { text: page.text + value, ..counted })
            },
        }
    }
}

/// The page after a field of its own was read.
pub open spec fn with_page_field(page: PageState, element: Element, text: Seq<u8>) -> Result<
    PageState,
    HttpError,
> {
    match element {
        Element::Name => match set_field(page.name, text) {
            Ok(name) => Ok(PageState { name, ..page }),
            Err(error) => Err(error),
        },
        Element::Prefix => match set_field(page.prefix, text) {
            Ok(prefix) => Ok(PageState { prefix, ..page }),
            Err(error) => Err(error),
        },
        Element::KeyCount => match field_number(text, u32::MAX as nat) {
            Ok(value) => match set_field(page.key_count, value as u32) {
                Ok(key_count) => Ok(PageState { key_count, ..page }),
                Err(error) => Err(error),
            },
            Err(error) => Err(error),
        },
        Element::MaxKeys => match field_number(text, u32::MAX as nat) {
            Ok(value) => match set_field(page.max_keys, value as u32) {
                Ok(max_keys) => Ok(PageState { max_keys, ..page }),
                Err(error) => Err(error),
            },
            Err(error) => Err(error),
        },
        Element::IsTruncated => if text != "true".spec_bytes() && text != "false".spec_bytes() {
            Err(xml::protocol("S3 list XML has an invalid truncation flag"))
        } else {
            match set_field(page.is_truncated, text == "true".spec_bytes()) {
                Ok(is_truncated) => Ok(PageState { is_truncated, ..page }),
                Err(error) => Err(error),
            }
        },
        Element::ContinuationToken => match set_field(page.continuation_token, text) {
            Ok(continuation_token) => Ok(PageState { continuation_token, ..page }),
            Err(error) => Err(error),
        },
        Element::NextContinuationToken => match set_field(page.next_continuation_token, text) {
            Ok(next_continuation_token) => Ok(PageState { next_continuation_token, ..page }),
            Err(error) => Err(error),
        },
        _ => Err(xml::protocol("S3 list XML field has the wrong parent")),
    }
}

/// An object after one of its fields was read.
pub open spec fn with_object_field(object: PartialObject, element: Element, text: Seq<u8>) -> Result<
    PartialObject,
    HttpError,
> {
    match element {
        Element::Key => match set_field(object.key, text) {
            Ok(key) => Ok(PartialObject { key, ..object }),
            Err(error) => Err(error),
        },
        Element::Size => match field_number(text, u64::MAX as nat) {
            Ok(value) => match set_field(object.size, value as u64) {
                Ok(size) => Ok(PartialObject { size, ..object }),
                Err(error) => Err(error),
            },
            Err(error) => Err(error),
        },
        Element::Etag => match set_field(object.etag, text) {
            Ok(etag) => Ok(PartialObject { etag, ..object }),
            Err(error) => Err(error),
        },
        Element::LastModified => match set_field(object.last_modified, text) {
            Ok(last_modified) => Ok(PartialObject { last_modified, ..object }),
            Err(error) => Err(error),
        },
        Element::StorageClass => if object.storage_class_seen {
            Err(xml::protocol("S3 list XML contains a duplicate field"))
        } else if text.len() == 0 {
            Err(xml::protocol("S3 list XML contains an empty storage class"))
        } else {
            Ok(PartialObject { storage_class_seen: true, ..object })
        },
        _ => Err(xml::protocol("S3 list XML field has the wrong parent")),
    }
}

/// Whether an element is a field of the page itself.
pub open spec fn is_page_field(element: Element) -> bool {
    element::is_page_child(element) && element.is_scalar()
}

/// The page after an element that holds text has ended.
pub open spec fn with_scalar(page: PageState, element: Element, text: Seq<u8>) -> Result<
    PageState,
    HttpError,
> {
    if is_page_field(element) {
        with_page_field(page, element, text)
    } else {
        match page.object {
            None => Err(xml::protocol("S3 list XML object field is outside an object")),
            Some(object) => match with_object_field(object, element, text) {
                Ok(next) => Ok(PageState { object: Some(next), ..page }),
                Err(error) => Err(error),
            },
        }
    }
}

/// The page after an object has ended.
pub open spec fn with_object(page: PageState) -> Result<PageState, HttpError> {
    match page.object {
        None => Err(xml::protocol("S3 list XML object is incomplete")),
        Some(object) => match (object.key, object.size) {
            (Some(key), Some(size)) if key.len() > 0 => Ok(
                PageState {
                    objects: page.objects.push(
                        ObjectModel {
                            key,
                            size,
                            etag: object.etag,
                            last_modified: object.last_modified,
                        },
                    ),
                    object: None,
                    ..page
                },
            ),
            (Some(key), None) if key.len() > 0 => Err(
                xml::protocol("S3 list XML object has no size"),
            ),
            _ => Err(xml::protocol("S3 list XML object has no key")),
        },
    }
}

/// The page after the end of an element.
pub open spec fn with_end(page: PageState, name: Seq<u8>) -> Result<PageState, HttpError> {
    match open_element(page) {
        None => Err(xml::protocol("S3 list XML contains an unmatched end element")),
        Some(element) => if element::element_name(element) != name {
            Err(xml::protocol("S3 list XML end element does not match"))
        } else {
            let popped = PageState { stack: page.stack.drop_last(), text: Seq::empty(), ..page };
            if element.is_scalar() {
                with_scalar(popped, element, page.text)
            } else if element == Element::Contents {
                with_object(popped)
            } else {
                Ok(PageState { root_closed: true, ..popped })
            }
        },
    }
}

/// The page after a token. An empty element counts as two events.
pub open spec fn with_token(page: PageState, token: xml::TokenModel) -> Result<
    PageState,
    HttpError,
> {
    match token {
        xml::TokenModel::Declaration => Ok(page),
        xml::TokenModel::Start { name, attributes, self_closing } => match with_start(
            page,
            name,
            attributes,
        ) {
            Err(error) => Err(error),
            Ok(started) => if self_closing {
                match with_event(started) {
                    Err(error) => Err(error),
                    Ok(counted) => with_end(counted, name),
                }
            } else {
                Ok(started)
            },
        },
        xml::TokenModel::End { name } => with_end(page, name),
        xml::TokenModel::Text { text } => with_text(page, text),
    }
}

/// The page after the token that stands first in `rest`, which starts at
/// `cursor` in its document, and the token's length.
pub open spec fn step(page: PageState, rest: Seq<u8>, cursor: int) -> Result<
    (PageState, int),
    HttpError,
> {
    match with_event(page) {
        Err(error) => Err(error),
        Ok(counted) => match xml::token_at(rest, cursor) {
            Err(error) => Err(error),
            Ok((token, length)) => match with_token(counted, token) {
                Err(error) => Err(error),
                Ok(next) => Ok((next, length)),
            },
        },
    }
}

/// The page after all tokens of `rest`, which starts at `cursor` in its
/// document.
#[verifier::opaque]
pub open spec fn read(page: PageState, rest: Seq<u8>, cursor: int) -> Result<PageState, HttpError>
    decreases rest.len(),
{
    if rest.len() == 0 {
        Ok(page)
    } else {
        match step(page, rest, cursor) {
            Err(error) => Err(error),
            Ok((next, length)) => {
                proof {
                    xml::lemma_token_length(rest, cursor);
                }
                read(next, bytes::after(rest, length), cursor + length)
            },
        }
    }
}

/// Whether every object's key begins with the prefix, and no key comes twice.
pub open spec fn keys_are_distinct(objects: Seq<ObjectModel>, prefix: Seq<u8>) -> bool {
    &&& forall|i: int|
        0 <= i < objects.len() ==> bytes::starts_with(#[trigger] objects[i].key, prefix)
    &&& forall|i: int, j: int|
        0 <= i < j < objects.len() ==> #[trigger] objects[i].key != #[trigger] objects[j].key
}

/// The page that was read, where it is complete and answers the request.
pub open spec fn finished(
    page: PageState,
    bucket: Seq<u8>,
    prefix: Seq<u8>,
    max_keys: u32,
    token: Option<Seq<u8>>,
) -> Result<PageModel, HttpError> {
    if !page.root_closed || page.stack.len() > 0 || page.object is Some {
        Err(xml::protocol("S3 list XML has no complete root"))
    } else if page.name != Some(bucket) || page.prefix != Some(prefix) {
        Err(xml::protocol("S3 list XML does not match the requested bucket or prefix"))
    } else if page.max_keys != Some(max_keys) {
        Err(xml::protocol("S3 list XML does not match the requested max-keys"))
    } else if page.continuation_token != token {
        Err(xml::protocol("S3 list XML does not match the requested continuation token"))
    } else if page.objects.len() > u32::MAX {
        Err(xml::limit("S3 list object count is not representable"))
    } else if page.objects.len() > max_keys || page.objects.len() > MAX_LIST_KEYS {
        Err(xml::limit("S3 list response exceeds the requested object limit"))
    } else if page.key_count != Some(page.objects.len() as u32) {
        Err(xml::protocol("S3 list XML key count does not match the returned objects"))
    } else if !keys_are_distinct(page.objects, prefix) {
        Err(xml::protocol("S3 list XML contains an out-of-prefix or duplicate key"))
    } else {
        match page.is_truncated {
            None => Err(xml::protocol("S3 list XML has no truncation flag")),
            Some(is_truncated) => if (match page.next_continuation_token {
                Some(next) => is_truncated && next.len() > 0,
                None => !is_truncated,
            }) {
                Ok(
                    PageModel {
                        objects: page.objects,
                        is_truncated,
                        next_continuation_token: page.next_continuation_token,
                    },
                )
            } else {
                Err(xml::protocol("S3 list XML truncation and continuation token disagree"))
            },
        }
    }
}

/// Whether a text holds only what may stand in an XML document.
pub open spec fn is_xml_text(source: Seq<u8>) -> bool {
    let chars = decode_utf8(source);
    forall|i: int| 0 <= i < chars.len() ==> xml::is_xml_scalar(#[trigger] chars[i] as u32)
}

/// The page that a response body gives in answer to a request.
pub open spec fn page_of(
    body: Seq<u8>,
    bucket: Seq<u8>,
    prefix: Seq<u8>,
    max_keys: u32,
    token: Option<Seq<u8>>,
) -> Result<PageModel, HttpError> {
    if body.len() > MAX_LIST_BODY_BYTES {
        Err(xml::limit("S3 list body exceeds the byte limit"))
    } else if !valid_utf8(body) {
        Err(xml::protocol("S3 list XML text is not valid UTF-8"))
    } else if !is_xml_text(body) {
        Err(xml::protocol("S3 list XML contains an invalid character"))
    } else {
        match read(empty_page(), body, 0) {
            Err(error) => Err(error),
            Ok(page) => finished(page, bucket, prefix, max_keys, token),
        }
    }
}

fn set_once<T>(slot: &mut Option<T>, value: T) -> (result: Result<(), HttpError>)
    ensures
        match set_field(*old(slot), value) {
            Ok(next) => result is Ok && *final(slot) == next,
            Err(error) => result == Err::<(), HttpError>(error),
        },
{
    if slot.is_some() {
        return Err(xml::protocol("S3 list XML contains a duplicate field"));
    }
    *slot = Some(value);
    Ok(())
}

/// Whether a field's text is a string of decimal digits without leading zeros.
fn is_canonical_number(value: &[u8]) -> (result: bool)
    ensures
        result == (value@.len() > 0 && bytes::all(value@, |b: u8| bytes::is_digit(b)) && !(
        value@.len() > 1 && value@[0] == '0' as u8)),
{
    !value.is_empty() && bytes::all_bytes(
        value,
        bytes::is_digit,
        Ghost(|b: u8| bytes::is_digit(b)),
    ) && !(value.len() > 1 && value[0] == '0' as u8)
}

/// A string of decimal digits is read unless its number is too great.
proof fn lemma_digits_are_parsed(text: Seq<u8>, max: nat)
    requires
        text.len() > 0,
        bytes::all(text, |b: u8| bytes::is_digit(b)),
    ensures
        number::parsed(text, 10, max) == (if number::value(text, 10) <= max {
            Some(number::value(text, 10))
        } else {
            None
        }),
{
    assert forall|i: int| 0 <= i < text.len() implies number::is_radix_digit(
        #[trigger] text[i],
        10,
    ) by {
        assert(bytes::is_digit(text[i]));
    }
}

pub fn parse_u32(value: &[u8]) -> (result: Result<u32, HttpError>)
    ensures
        match field_number(value@, u32::MAX as nat) {
            Ok(n) => result == Ok::<u32, HttpError>(n as u32),
            Err(error) => result == Err::<u32, HttpError>(error),
        },
{
    if !is_canonical_number(value) {
        return Err(xml::protocol("S3 list XML contains an invalid integer"));
    }
    proof {
        lemma_digits_are_parsed(value@, u32::MAX as nat);
    }
    match number::parse(value, 10, u32::MAX as u64) {
        Some(n) => Ok(n as u32),
        None => Err(xml::protocol("S3 list XML integer is out of range")),
    }
}

pub fn parse_u64(value: &[u8]) -> (result: Result<u64, HttpError>)
    ensures
        match field_number(value@, u64::MAX as nat) {
            Ok(n) => result == Ok::<u64, HttpError>(n as u64),
            Err(error) => result == Err::<u64, HttpError>(error),
        },
{
    if !is_canonical_number(value) {
        return Err(xml::protocol("S3 list XML contains an invalid integer"));
    }
    proof {
        lemma_digits_are_parsed(value@, u64::MAX as nat);
    }
    match number::parse(value, 10, u64::MAX) {
        Some(n) => Ok(n),
        None => Err(xml::protocol("S3 list XML integer is out of range")),
    }
}

/// An object that is being read.
struct ObjectBuilder {
    key: Option<String>,
    size: Option<u64>,
    etag: Option<String>,
    last_modified: Option<String>,
    storage_class_seen: bool,
}

impl ObjectBuilder {
    spec fn model(&self) -> PartialObject {
        PartialObject {
            key: header::encoded(self.key),
            size: self.size,
            etag: header::encoded(self.etag),
            last_modified: header::encoded(self.last_modified),
            storage_class_seen: self.storage_class_seen,
        }
    }

    fn new() -> (result: Self)
        ensures
            result.model() == no_object_fields(),
    {
        ObjectBuilder {
            key: None,
            size: None,
            etag: None,
            last_modified: None,
            storage_class_seen: false,
        }
    }
}

/// A page that is being read.
struct PageBuilder {
    name: Option<String>,
    prefix: Option<String>,
    key_count: Option<u32>,
    max_keys: Option<u32>,
    is_truncated: Option<bool>,
    continuation_token: Option<String>,
    next_continuation_token: Option<String>,
    objects: Vec<ParsedListedObject>,
    object: Option<ObjectBuilder>,
    stack: Vec<Element>,
    text: Vec<u8>,
    total_text_bytes: usize,
    events: usize,
    root_closed: bool,
}

/// Whether a builder went where the model goes.
spec fn advances(
    result: Result<(), HttpError>,
    page: PageBuilder,
    model: Result<PageState, HttpError>,
) -> bool {
    match model {
        Ok(next) => result is Ok && page.model() == next && page.wf(),
        Err(error) => result == Err::<(), HttpError>(error),
    }
}

impl PageBuilder {
    spec fn model(&self) -> PageState {
        PageState {
            name: header::encoded(self.name),
            prefix: header::encoded(self.prefix),
            key_count: self.key_count,
            max_keys: self.max_keys,
            is_truncated: self.is_truncated,
            continuation_token: header::encoded(self.continuation_token),
            next_continuation_token: header::encoded(self.next_continuation_token),
            objects: object_models(self.objects@),
            object: match self.object {
                Some(object) => Some(object.model()),
                None => None,
            },
            stack: self.stack@,
            text: self.text@,
            total_text_bytes: self.total_text_bytes as int,
            events: self.events as int,
            root_closed: self.root_closed,
        }
    }

    /// The text that is being read is one.
    spec fn wf(&self) -> bool {
        valid_utf8(self.text@)
    }

    fn new() -> (result: Self)
        ensures
            result.model() == empty_page(),
            result.wf(),
    {
        let result = PageBuilder {
            name: None,
            prefix: None,
            key_count: None,
            max_keys: None,
            is_truncated: None,
            continuation_token: None,
            next_continuation_token: None,
            objects: Vec::new(),
            object: None,
            stack: Vec::new(),
            text: Vec::new(),
            total_text_bytes: 0,
            events: 0,
            root_closed: false,
        };
        assert(result.model() =~= empty_page());
        result
    }

    fn event(&mut self) -> (result: Result<(), HttpError>)
        requires
            old(self).wf(),
        ensures
            advances(result, *final(self), with_event(old(self).model())),
    {
        match self.events.checked_add(1) {
            None => Err(xml::limit("S3 list XML event count overflowed")),
            Some(events) => {
                if events > MAX_LIST_XML_EVENTS {
                    return Err(xml::limit("S3 list XML exceeds the event limit"));
                }
                self.events = events;
                Ok(())
            },
        }
    }

    fn open_element(&self) -> (result: Option<Element>)
        ensures
            result == open_element(self.model()),
    {
        if self.stack.len() == 0 {
            None
        } else {
            Some(self.stack[self.stack.len() - 1])
        }
    }

    fn start(&mut self, name: &[u8], attributes: usize) -> (result: Result<(), HttpError>)
        requires
            old(self).wf(),
        ensures
            advances(result, *final(self), with_start(old(self).model(), name@, attributes as int)),
    {
        if self.root_closed {
            return Err(xml::protocol("S3 list XML contains data after the root"));
        }
        let element = element::child_element(self.open_element(), name)?;
        if attributes != 0 && element != Element::Root {
            return Err(xml::protocol("S3 list XML contains unexpected attributes"));
        }
        if self.stack.len() >= MAX_LIST_XML_DEPTH {
            return Err(xml::limit("S3 list XML exceeds the nesting limit"));
        }
        if element == Element::Contents {
            if self.object.is_some() {
                return Err(xml::protocol("S3 list XML contains nested objects"));
            }
            self.object = Some(ObjectBuilder::new());
        }
        self.stack.push(element);
        self.text = Vec::new();
        Ok(())
    }

    fn append_text(&mut self, value: &[u8]) -> (result: Result<(), HttpError>)
        requires
            old(self).wf(),
            valid_utf8(value@),
        ensures
            advances(result, *final(self), with_text(old(self).model(), value@)),
    {
        let total: usize = match self.total_text_bytes.checked_add(value.len()) {
            None => {
                return Err(xml::limit("S3 list XML text count overflowed"));
            },
            Some(total) => total,
        };
        if total > MAX_LIST_XML_TEXT_BYTES {
            return Err(xml::limit("S3 list XML exceeds the text byte limit"));
        }
        self.total_text_bytes = total;
        match self.open_element() {
            None => {
                if bytes::all_bytes(
                    value,
                    bytes::is_whitespace,
                    Ghost(|b: u8| bytes::is_whitespace(b)),
                ) {
                    return Ok(());
                }
                Err(xml::protocol("S3 list XML contains text outside the root"))
            },
            Some(element) => {
                if !element.is_scalar() {
                    if bytes::all_bytes(
                        value,
                        bytes::is_whitespace,
                        Ghost(|b: u8| bytes::is_whitespace(b)),
                    ) {
                        return Ok(());
                    }
                    return Err(xml::protocol("S3 list XML contains text in a container"));
                }
                if value.len() > element.text_limit() || self.text.len() > element.text_limit()
                    - value.len() {
                    return Err(xml::limit("S3 list XML field exceeds its byte limit"));
                }
                proof {
                    valid_utf8_concat(self.text@, value@);
                }
                text::append(&mut self.text, value);
                Ok(())
            },
        }
    }

    fn append_reference(&mut self, scalar: u32) -> (result: Result<(), HttpError>)
        requires
            old(self).wf(),
            is_scalar(scalar),
        ensures
            advances(result, *final(self), with_text(old(self).model(), encode_scalar(scalar))),
    {
        let mut encoded: Vec<u8> = Vec::new();
        text::push_scalar(&mut encoded, scalar);
        proof {
            assert(encoded@ =~= encode_scalar(scalar));
            text::lemma_scalar_is_utf8(scalar);
        }
        self.append_text(encoded.as_slice())
    }

    fn finish_page_scalar(&mut self, element: Element, text: &[u8]) -> (result: Result<
        (),
        HttpError,
    >)
        requires
            old(self).wf(),
            valid_utf8(text@),
        ensures
            advances(result, *final(self), with_page_field(old(self).model(), element, text@)),
    {
        match element {
            Element::Name => set_once(&mut self.name, text::utf8_string(text)),
            Element::Prefix => set_once(&mut self.prefix, text::utf8_string(text)),
            Element::KeyCount => {
                let value: u32 = parse_u32(text)?;
                set_once(&mut self.key_count, value)
            },
            Element::MaxKeys => {
                let value: u32 = parse_u32(text)?;
                set_once(&mut self.max_keys, value)
            },
            Element::IsTruncated => {
                let value = if bytes::equal(text, "true".as_bytes()) {
                    true
                } else if bytes::equal(text, "false".as_bytes()) {
                    false
                } else {
                    return Err(xml::protocol("S3 list XML has an invalid truncation flag"));
                };
                set_once(&mut self.is_truncated, value)
            },
            Element::ContinuationToken => set_once(
                &mut self.continuation_token,
                text::utf8_string(text),
            ),
            Element::NextContinuationToken => set_once(
                &mut self.next_continuation_token,
                text::utf8_string(text),
            ),
            Element::Root
            | Element::Contents
            | Element::Key
            | Element::Size
            | Element::Etag
            | Element::LastModified
            | Element::StorageClass => Err(
                xml::protocol("S3 list XML field has the wrong parent"),
            ),
        }
    }

    fn finish_object_scalar(&mut self, element: Element, text: &[u8]) -> (result: Result<
        (),
        HttpError,
    >)
        requires
            old(self).wf(),
            valid_utf8(text@),
            !is_page_field(element),
        ensures
            advances(result, *final(self), with_scalar(old(self).model(), element, text@)),
    {
        let mut object = match self.object.take() {
            None => {
                return Err(xml::protocol("S3 list XML object field is outside an object"));
            },
            Some(object) => object,
        };
        match element {
            Element::Key => set_once(&mut object.key, text::utf8_string(text))?,
            Element::Size => {
                let value: u64 = parse_u64(text)?;
                set_once(&mut object.size, value)?
            },
            Element::Etag => set_once(&mut object.etag, text::utf8_string(text))?,
            Element::LastModified => set_once(&mut object.last_modified, text::utf8_string(text))?,
            Element::StorageClass => {
                if object.storage_class_seen {
                    return Err(xml::protocol("S3 list XML contains a duplicate field"));
                }
                object.storage_class_seen = true;
                if text.is_empty() {
                    return Err(xml::protocol("S3 list XML contains an empty storage class"));
                }
            },
            Element::Root
            | Element::Contents
            | Element::Name
            | Element::Prefix
            | Element::KeyCount
            | Element::MaxKeys
            | Element::IsTruncated
            | Element::ContinuationToken
            | Element::NextContinuationToken => {
                return Err(xml::protocol("S3 list XML field has the wrong parent"));
            },
        }
        self.object = Some(object);
        Ok(())
    }

    fn finish_scalar(&mut self, element: Element, text: &[u8]) -> (result: Result<(), HttpError>)
        requires
            old(self).wf(),
            valid_utf8(text@),
            element.is_scalar(),
        ensures
            advances(result, *final(self), with_scalar(old(self).model(), element, text@)),
    {
        match element {
            Element::Name
            | Element::Prefix
            | Element::KeyCount
            | Element::MaxKeys
            | Element::IsTruncated
            | Element::ContinuationToken
            | Element::NextContinuationToken => self.finish_page_scalar(element, text),
            _ => self.finish_object_scalar(element, text),
        }
    }

    fn finish_object(&mut self) -> (result: Result<(), HttpError>)
        requires
            old(self).wf(),
        ensures
            advances(result, *final(self), with_object(old(self).model())),
    {
        let object = match self.object.take() {
            None => {
                return Err(xml::protocol("S3 list XML object is incomplete"));
            },
            Some(object) => object,
        };
        let key = match object.key {
            None => {
                return Err(xml::protocol("S3 list XML object has no key"));
            },
            Some(key) => key,
        };
        if key.as_str().as_bytes().is_empty() {
            return Err(xml::protocol("S3 list XML object has no key"));
        }
        let size: u64 = match object.size {
            None => {
                return Err(xml::protocol("S3 list XML object has no size"));
            },
            Some(size) => size,
        };
        let ghost before = self.objects@;
        let listed = ParsedListedObject {
            key,
            size,
            etag: object.etag,
            last_modified: object.last_modified,
        };
        self.objects.push(listed);
        assert(object_models(self.objects@) =~= object_models(before).push(listed@));
        Ok(())
    }

    fn end(&mut self, name: &[u8]) -> (result: Result<(), HttpError>)
        requires
            old(self).wf(),
        ensures
            advances(result, *final(self), with_end(old(self).model(), name@)),
    {
        let element = match self.stack.pop() {
            None => {
                return Err(xml::protocol("S3 list XML contains an unmatched end element"));
            },
            Some(element) => element,
        };
        if !bytes::equal(element.name(), name) {
            return Err(xml::protocol("S3 list XML end element does not match"));
        }
        let mut text: Vec<u8> = Vec::new();
        std::mem::swap(&mut text, &mut self.text);
        assert(self.stack@ == old(self).stack@.drop_last());
        if element.is_scalar() {
            self.finish_scalar(element, text.as_slice())
        } else if element == Element::Contents {
            self.finish_object()
        } else {
            self.root_closed = true;
            Ok(())
        }
    }

    fn apply(&mut self, token: Token) -> (result: Result<(), HttpError>)
        requires
            old(self).wf(),
            token.wf(),
        ensures
            advances(result, *final(self), with_token(old(self).model(), token@)),
    {
        match token {
            Token::Declaration => Ok(()),
            Token::Start { name, attributes, self_closing } => {
                self.start(name, attributes)?;
                if self_closing {
                    self.event()?;
                    self.end(name)?;
                }
                Ok(())
            },
            Token::End { name } => self.end(name),
            Token::Text { text } => self.append_text(text),
            Token::Reference { scalar } => self.append_reference(scalar),
        }
    }
}

/// The bytes of an optional text.
pub open spec fn optional_bytes(value: Option<&str>) -> Option<Seq<u8>> {
    match value {
        Some(text) => Some(text.spec_bytes()),
        None => None,
    }
}

/// Whether a field was set to the given text.
fn is_text(value: &Option<String>, expected: &[u8]) -> (result: bool)
    ensures
        result == (header::encoded(*value) == Some(expected@)),
{
    match value {
        Some(text) => bytes::equal(text.as_str().as_bytes(), expected),
        None => false,
    }
}

/// Whether every key begins with the prefix, and no key comes twice.
fn distinct_keys(objects: &Vec<ParsedListedObject>, prefix: &[u8]) -> (result: bool)
    ensures
        result == keys_are_distinct(object_models(objects@), prefix@),
{
    let ghost models = object_models(objects@);
    let mut i: usize = 0;
    while i < objects.len()
        invariant
            i <= objects@.len(),
            models == object_models(objects@),
            forall|k: int| 0 <= k < i ==> bytes::starts_with(#[trigger] models[k].key, prefix@),
            forall|j: int, k: int|
                0 <= j < k < i ==> #[trigger] models[j].key != #[trigger] models[k].key,
        decreases objects.len() - i,
    {
        let key = objects[i].key.as_str().as_bytes();
        assert(key@ == models[i as int].key);
        if !bytes::occurs(key, prefix, 0) {
            return false;
        }
        let mut j: usize = 0;
        while j < i
            invariant
                j <= i < objects@.len(),
                models == object_models(objects@),
                key@ == models[i as int].key,
                forall|k: int| 0 <= k < j ==> #[trigger] models[k].key != models[i as int].key,
            decreases i - j,
        {
            let other = objects[j].key.as_str().as_bytes();
            assert(other@ == models[j as int].key);
            if bytes::equal(other, key) {
                return false;
            }
            j += 1;
        }
        i += 1;
    }
    true
}

impl PageBuilder {
    fn finish(
        self,
        bucket: &str,
        prefix: &str,
        requested_max_keys: u32,
        requested_token: Option<&str>,
    ) -> (result: Result<ParsedListPage, HttpError>)
        ensures
            error::agrees(
                result,
                finished(
                    self.model(),
                    bucket.spec_bytes(),
                    prefix.spec_bytes(),
                    requested_max_keys,
                    optional_bytes(requested_token),
                ),
            ),
    {
        if !self.root_closed || self.stack.len() > 0 || self.object.is_some() {
            return Err(xml::protocol("S3 list XML has no complete root"));
        }
        if !is_text(&self.name, bucket.as_bytes()) || !is_text(&self.prefix, prefix.as_bytes()) {
            return Err(
                xml::protocol("S3 list XML does not match the requested bucket or prefix"),
            );
        }
        let max_keys_match = match self.max_keys {
            Some(max_keys) => max_keys == requested_max_keys,
            None => false,
        };
        if !max_keys_match {
            return Err(xml::protocol("S3 list XML does not match the requested max-keys"));
        }
        let tokens_match = match requested_token {
            Some(token) => is_text(&self.continuation_token, token.as_bytes()),
            None => self.continuation_token.is_none(),
        };
        if !tokens_match {
            return Err(
                xml::protocol("S3 list XML does not match the requested continuation token"),
            );
        }
        if self.objects.len() > u32::MAX as usize {
            return Err(xml::limit("S3 list object count is not representable"));
        }
        let object_count: u32 = self.objects.len() as u32;
        if object_count > requested_max_keys || object_count > MAX_LIST_KEYS {
            return Err(xml::limit("S3 list response exceeds the requested object limit"));
        }
        let counts_match = match self.key_count {
            Some(key_count) => key_count == object_count,
            None => false,
        };
        if !counts_match {
            return Err(
                xml::protocol("S3 list XML key count does not match the returned objects"),
            );
        }
        if !distinct_keys(&self.objects, prefix.as_bytes()) {
            return Err(xml::protocol("S3 list XML contains an out-of-prefix or duplicate key"));
        }
        let is_truncated = match self.is_truncated {
            None => {
                return Err(xml::protocol("S3 list XML has no truncation flag"));
            },
            Some(is_truncated) => is_truncated,
        };
        let tokens_agree = match &self.next_continuation_token {
            Some(token) => is_truncated && !token.as_str().as_bytes().is_empty(),
            None => !is_truncated,
        };
        if !tokens_agree {
            return Err(xml::protocol("S3 list XML truncation and continuation token disagree"));
        }
        Ok(
            ParsedListPage {
                objects: self.objects,
                is_truncated,
                next_continuation_token: self.next_continuation_token,
            },
        )
    }
}

fn consume_event(page: &mut PageBuilder, source: &[u8], cursor: usize) -> (result: Result<
    usize,
    HttpError,
>)
    requires
        old(page).wf(),
        cursor < source@.len(),
        valid_utf8(bytes::after(source@, cursor as int)),
    ensures
        match step(old(page).model(), bytes::after(source@, cursor as int), cursor as int) {
            Ok((next, length)) => {
                &&& result == Ok::<usize, HttpError>((cursor + length) as usize)
                &&& 0 < length <= source@.len() - cursor
                &&& final(page).model() == next
                &&& final(page).wf()
                &&& valid_utf8(bytes::after(source@, cursor + length))
            },
            Err(error) => result == Err::<usize, HttpError>(error),
        },
{
    page.event()?;
    let remaining = &source[cursor..source.len()];
    let (token, length) = xml::next_token(remaining, cursor)?;
    page.apply(token)?;
    assert(bytes::after(remaining@, length as int) =~= bytes::after(source@, cursor + length));
    assert(cursor + length <= source.len());
    Ok(cursor + length)
}

/// Whether a text holds only what may stand in an XML document.
fn valid_xml_text(source: &str) -> (result: bool)
    ensures
        result == is_xml_text(source.spec_bytes()),
{
    proof {
        encode_utf8_decode_utf8(source@);
    }
    for c in it: source.chars()
        invariant
            it.seq() == source@,
            decode_utf8(source.spec_bytes()) == source@,
            forall|i: int| 0 <= i < it.index() ==> xml::is_xml_scalar(#[trigger] source@[i] as u32),
    {
        if !xml::is_xml_scalar(c as u32) {
            return false;
        }
    }
    true
}

/// Reads one page of a listing of `bucket`, and checks that it answers the
/// request for at most `max_keys` keys behind `prefix` and `continuation_token`.
/// A failure returns no part of the page.
pub fn parse_list_page(
    body: &[u8],
    bucket: &str,
    prefix: &str,
    max_keys: u32,
    continuation_token: Option<&str>,
) -> (result: Result<ParsedListPage, HttpError>)
    ensures
        error::agrees(
            result,
            page_of(
                body@,
                bucket.spec_bytes(),
                prefix.spec_bytes(),
                max_keys,
                optional_bytes(continuation_token),
            ),
        ),
{
    if body.len() > MAX_LIST_BODY_BYTES {
        return Err(xml::limit("S3 list body exceeds the byte limit"));
    }
    let source = match text::utf8_text(body) {
        None => {
            return Err(xml::protocol("S3 list XML text is not valid UTF-8"));
        },
        Some(source) => source,
    };
    if !valid_xml_text(source) {
        return Err(xml::protocol("S3 list XML contains an invalid character"));
    }
    let mut page = PageBuilder::new();
    let mut cursor: usize = 0;
    reveal(read);
    assert(bytes::after(body@, 0) =~= body@);
    while cursor < body.len()
        invariant
            cursor <= body@.len() <= MAX_LIST_BODY_BYTES,
            valid_utf8(body@),
            is_xml_text(body@),
            page.wf(),
            valid_utf8(bytes::after(body@, cursor as int)),
            read(empty_page(), body@, 0) == read(
                page.model(),
                bytes::after(body@, cursor as int),
                cursor as int,
            ),
        decreases body.len() - cursor,
    {
        reveal(read);
        let ghost rest = bytes::after(body@, cursor as int);
        let ghost before = cursor as int;
        cursor = consume_event(&mut page, body, cursor)?;
        assert(bytes::after(rest, cursor - before) =~= bytes::after(body@, cursor as int));
    }
    page.finish(bucket, prefix, max_keys, continuation_token)
}

/// Whether an optional text has at most `most` bytes.
pub open spec fn is_short(value: Option<Seq<u8>>, most: int) -> bool {
    value matches Some(text) ==> text.len() <= most
}

/// Whether a listed object is within the limits of its fields.
pub open spec fn is_bounded_object(object: ObjectModel) -> bool {
    &&& 1 <= object.key.len() <= element::MAX_OBJECT_KEY_BYTES
    &&& is_short(object.etag, element::MAX_ETAG_BYTES as int)
    &&& is_short(object.last_modified, element::MAX_LAST_MODIFIED_BYTES as int)
}

/// Whether what was read of a page is within the limits of its fields.
spec fn is_bounded(page: PageState) -> bool {
    &&& open_element(page) matches Some(element) ==> (element.is_scalar() ==> page.text.len()
        <= element.text_limit())
    &&& is_short(page.next_continuation_token, element::MAX_CONTINUATION_TOKEN_BYTES as int)
    &&& page.object matches Some(object) ==> {
        &&& is_short(object.key, element::MAX_OBJECT_KEY_BYTES as int)
        &&& is_short(object.etag, element::MAX_ETAG_BYTES as int)
        &&& is_short(object.last_modified, element::MAX_LAST_MODIFIED_BYTES as int)
    }
    &&& forall|i: int|
        0 <= i < page.objects.len() ==> is_bounded_object(#[trigger] page.objects[i])
}

proof fn lemma_end_is_bounded(page: PageState, name: Seq<u8>)
    requires
        is_bounded(page),
    ensures
        with_end(page, name) matches Ok(next) ==> is_bounded(next),
{
}

proof fn lemma_token_is_bounded(page: PageState, token: xml::TokenModel)
    requires
        is_bounded(page),
    ensures
        with_token(page, token) matches Ok(next) ==> is_bounded(next),
{
    match token {
        xml::TokenModel::Declaration => {},
        xml::TokenModel::Start { name, attributes, self_closing } => {
            if let Ok(started) = with_start(page, name, attributes) {
                assert(is_bounded(started));
                if self_closing {
                    if let Ok(counted) = with_event(started) {
                        lemma_end_is_bounded(counted, name);
                    }
                }
            }
        },
        xml::TokenModel::End { name } => {
            lemma_end_is_bounded(page, name);
        },
        xml::TokenModel::Text { text } => {},
    }
}

proof fn lemma_read_is_bounded(page: PageState, rest: Seq<u8>, cursor: int)
    requires
        is_bounded(page),
    ensures
        read(page, rest, cursor) matches Ok(next) ==> is_bounded(next),
    decreases rest.len(),
{
    reveal(read);
    if rest.len() > 0 && step(page, rest, cursor) is Ok {
        let (next, length) = step(page, rest, cursor)->Ok_0;
        let counted = with_event(page)->Ok_0;
        let token = xml::token_at(rest, cursor)->Ok_0.0;
        lemma_token_is_bounded(counted, token);
        xml::lemma_token_length(rest, cursor);
        lemma_read_is_bounded(next, bytes::after(rest, length), cursor + length);
    }
}

/// A page that is returned answers its request: it holds at most as many
/// objects as were asked for, their keys begin with the prefix and differ from
/// each other, every field is within its limit, and there is a nonempty
/// continuation token exactly where the listing goes on.
pub proof fn law_pages_answer_the_request(
    body: Seq<u8>,
    bucket: Seq<u8>,
    prefix: Seq<u8>,
    max_keys: u32,
    token: Option<Seq<u8>>,
)
    requires
        page_of(body, bucket, prefix, max_keys, token) is Ok,
    ensures
        ({
            let page = page_of(body, bucket, prefix, max_keys, token)->Ok_0;
            &&& page.objects.len() <= max_keys
            &&& page.objects.len() <= MAX_LIST_KEYS
            &&& keys_are_distinct(page.objects, prefix)
            &&& forall|i: int|
                0 <= i < page.objects.len() ==> is_bounded_object(#[trigger] page.objects[i])
            &&& page.is_truncated == page.next_continuation_token is Some
            &&& page.next_continuation_token matches Some(next) ==> 0 < next.len()
                <= element::MAX_CONTINUATION_TOKEN_BYTES
        }),
{
    lemma_read_is_bounded(empty_page(), body, 0);
}

proof fn lemma_marks_begin_tokens(page: PageState, rest: Seq<u8>, cursor: int, i: int)
    requires
        read(page, rest, cursor) is Ok,
        0 <= i < rest.len(),
        !xml::is_text_byte(rest[i]),
    ensures
        xml::token_at(bytes::after(rest, i), cursor + i) is Ok,
    decreases rest.len(),
{
    reveal(read);
    let (next, length) = step(page, rest, cursor)->Ok_0;
    let tail = bytes::after(rest, length);
    xml::lemma_token_length(rest, cursor);
    xml::lemma_token_is_plain(rest, cursor);
    if i == 0 {
        assert(bytes::after(rest, 0) =~= rest);
    } else if i < length {
        assert(xml::is_text_byte(bytes::before(rest, length)[i]));
    } else {
        assert(bytes::after(tail, i - length) =~= bytes::after(rest, i));
        lemma_marks_begin_tokens(next, tail, cursor + length, i - length);
    }
}

/// In a document that is accepted every angle bracket that opens begins a tag,
/// or the declaration at the start, and every ampersand begins a reference to a
/// predefined entity or a character. There are no document types, no entities
/// of a document's own, no comments and no other markup.
pub proof fn law_documents_hold_no_other_markup(
    body: Seq<u8>,
    bucket: Seq<u8>,
    prefix: Seq<u8>,
    max_keys: u32,
    token: Option<Seq<u8>>,
    i: int,
)
    requires
        page_of(body, bucket, prefix, max_keys, token) is Ok,
        0 <= i < body.len(),
        body[i] == '<' as u8 || body[i] == '&' as u8,
    ensures
        xml::token_at(bytes::after(body, i), i) is Ok,
        !bytes::starts_with(bytes::after(body, i), "<!".spec_bytes()),
        body[i] == '&' as u8 ==> xml::reference_at(bytes::after(body, i)) is Ok,
{
    lemma_marks_begin_tokens(empty_page(), body, 0, i);
    reveal_strlit("<!");
    is_ascii_chars_encode_utf8("<!"@);
    reveal_strlit("<?xml");
    is_ascii_chars_encode_utf8("<?xml"@);
    reveal_strlit("</");
    is_ascii_chars_encode_utf8("</"@);
    reveal_strlit("<");
    is_ascii_chars_encode_utf8("<"@);
    reveal_strlit("&");
    is_ascii_chars_encode_utf8("&"@);
    let rest = bytes::after(body, i);
    if bytes::starts_with(rest, "<!".spec_bytes()) {
        assert(rest.subrange(0, 2)[1] == '!' as u8);
        if bytes::starts_with(rest, "<?xml".spec_bytes()) {
            assert(rest.subrange(0, 5)[1] == '?' as u8);
        }
    }
    if body[i] == '&' as u8 {
        if bytes::starts_with(rest, "<?xml".spec_bytes()) {
            assert(rest.subrange(0, 5)[0] == '<' as u8);
        }
        if bytes::starts_with(rest, "</".spec_bytes()) {
            assert(rest.subrange(0, 2)[0] == '<' as u8);
        }
        if bytes::starts_with(rest, "<".spec_bytes()) {
            assert(rest.subrange(0, 1)[0] == '<' as u8);
        }
        assert(rest.subrange(0, 1) =~= "&".spec_bytes());
    }
}

} // verus!
