//! The elements of a ListObjectsV2 page.

use crate::bytes;
use crate::error::{HttpError, HttpErrorKind};
use vstd::prelude::*;
use vstd::string::*;
use vstd::utf8::*;

verus! {

pub const MAX_LIST_PREFIX_BYTES: usize = 1_024;

pub const MAX_CONTINUATION_TOKEN_BYTES: usize = 2_048;

pub const MAX_OBJECT_KEY_BYTES: usize = 1_024;

pub const MAX_ETAG_BYTES: usize = 1_024;

pub const MAX_LAST_MODIFIED_BYTES: usize = 128;

pub const MAX_STORAGE_CLASS_BYTES: usize = 64;

/// An element that may stand in a page.
#[derive(Clone, Copy, Debug, Eq, PartialEq, Structural)]
pub enum Element {
    Root,
    Name,
    Prefix,
    KeyCount,
    MaxKeys,
    IsTruncated,
    ContinuationToken,
    NextContinuationToken,
    Contents,
    Key,
    LastModified,
    Etag,
    Size,
    StorageClass,
}

/// How an element is written.
pub open spec fn element_name(element: Element) -> Seq<u8> {
    match element {
        Element::Root => "ListBucketResult".spec_bytes(),
        Element::Name => "Name".spec_bytes(),
        Element::Prefix => "Prefix".spec_bytes(),
        Element::KeyCount => "KeyCount".spec_bytes(),
        Element::MaxKeys => "MaxKeys".spec_bytes(),
        Element::IsTruncated => "IsTruncated".spec_bytes(),
        Element::ContinuationToken => "ContinuationToken".spec_bytes(),
        Element::NextContinuationToken => "NextContinuationToken".spec_bytes(),
        Element::Contents => "Contents".spec_bytes(),
        Element::Key => "Key".spec_bytes(),
        Element::LastModified => "LastModified".spec_bytes(),
        Element::Etag => "ETag".spec_bytes(),
        Element::Size => "Size".spec_bytes(),
        Element::StorageClass => "StorageClass".spec_bytes(),
    }
}

impl Element {
    pub fn name(self) -> (result: &'static [u8])
        ensures
            result@ == element_name(self),
    {
        match self {
            Element::Root => "ListBucketResult".as_bytes(),
            Element::Name => "Name".as_bytes(),
            Element::Prefix => "Prefix".as_bytes(),
            Element::KeyCount => "KeyCount".as_bytes(),
            Element::MaxKeys => "MaxKeys".as_bytes(),
            Element::IsTruncated => "IsTruncated".as_bytes(),
            Element::ContinuationToken => "ContinuationToken".as_bytes(),
            Element::NextContinuationToken => "NextContinuationToken".as_bytes(),
            Element::Contents => "Contents".as_bytes(),
            Element::Key => "Key".as_bytes(),
            Element::LastModified => "LastModified".as_bytes(),
            Element::Etag => "ETag".as_bytes(),
            Element::Size => "Size".as_bytes(),
            Element::StorageClass => "StorageClass".as_bytes(),
        }
    }

    /// Whether the element holds text and no other elements.
    #[verifier::allow_in_spec]
    pub fn is_scalar(self) -> bool
        returns
            self != Element::Root && self != Element::Contents,
    {
        self != Element::Root && self != Element::Contents
    }

    /// How many bytes of text the element may hold.
    #[verifier::allow_in_spec]
    pub fn text_limit(self) -> usize
        returns
            (match self {
                Element::Name => 63usize,
                Element::Prefix => MAX_LIST_PREFIX_BYTES,
                Element::ContinuationToken => MAX_CONTINUATION_TOKEN_BYTES,
                Element::NextContinuationToken => MAX_CONTINUATION_TOKEN_BYTES,
                Element::Key => MAX_OBJECT_KEY_BYTES,
                Element::Etag => MAX_ETAG_BYTES,
                Element::LastModified => MAX_LAST_MODIFIED_BYTES,
                Element::StorageClass => MAX_STORAGE_CLASS_BYTES,
                Element::KeyCount => 20usize,
                Element::MaxKeys => 20usize,
                Element::Size => 20usize,
                Element::IsTruncated => 5usize,
                Element::Root => 0usize,
                Element::Contents => 0usize,
            }),
    {
        match self {
            Element::Name => 63,
            Element::Prefix => MAX_LIST_PREFIX_BYTES,
            Element::ContinuationToken | Element::NextContinuationToken => {
                MAX_CONTINUATION_TOKEN_BYTES
            },
            Element::Key => MAX_OBJECT_KEY_BYTES,
            Element::Etag => MAX_ETAG_BYTES,
            Element::LastModified => MAX_LAST_MODIFIED_BYTES,
            Element::StorageClass => MAX_STORAGE_CLASS_BYTES,
            Element::KeyCount | Element::MaxKeys | Element::Size => 20,
            Element::IsTruncated => 5,
            Element::Root | Element::Contents => 0,
        }
    }
}

/// The elements that may stand in the root.
pub open spec fn is_page_child(element: Element) -> bool {
    match element {
        Element::Name => true,
        Element::Prefix => true,
        Element::KeyCount => true,
        Element::MaxKeys => true,
        Element::IsTruncated => true,
        Element::ContinuationToken => true,
        Element::NextContinuationToken => true,
        Element::Contents => true,
        _ => false,
    }
}

/// The elements that may stand in `Contents`.
pub open spec fn is_object_child(element: Element) -> bool {
    match element {
        Element::Key => true,
        Element::LastModified => true,
        Element::Etag => true,
        Element::Size => true,
        Element::StorageClass => true,
        _ => false,
    }
}

pub open spec fn unexpected_element() -> HttpError {
    HttpError::new(HttpErrorKind::Protocol, "S3 list XML contains an unexpected element")
}

pub open spec fn unexpected_object_field() -> HttpError {
    HttpError::new(HttpErrorKind::Protocol, "S3 list XML contains an unexpected object field")
}

pub open spec fn invalid_nesting() -> HttpError {
    HttpError::new(HttpErrorKind::Protocol, "S3 list XML has an invalid nesting shape")
}

/// Whether an element of this kind may stand directly in `parent`.
pub open spec fn is_child(parent: Option<Element>, element: Element) -> bool {
    match parent {
        None => element == Element::Root,
        Some(Element::Root) => is_page_child(element),
        Some(Element::Contents) => is_object_child(element),
        _ => false,
    }
}

/// The error that an element which may not stand in `parent` is refused with.
pub open spec fn child_error(parent: Option<Element>) -> HttpError {
    match parent {
        Some(Element::Root) => unexpected_element(),
        Some(Element::Contents) => unexpected_object_field(),
        _ => invalid_nesting(),
    }
}

/// The element of this name that may stand in `parent`.
pub open spec fn child(parent: Option<Element>, name: Seq<u8>) -> Result<Element, HttpError> {
    if exists|element: Element|
        is_child(parent, element) && #[trigger] element_name(element) == name {
        Ok(
            choose|element: Element|
                is_child(parent, element) && #[trigger] element_name(element) == name,
        )
    } else {
        Err(child_error(parent))
    }
}

/// The length and the first byte of an element's name, which tell the names
/// apart.
pub open spec fn name_shape(element: Element) -> (int, u8) {
    match element {
        Element::Root => (16int, 'L' as u8),
        Element::Name => (4int, 'N' as u8),
        Element::Prefix => (6int, 'P' as u8),
        Element::KeyCount => (8int, 'K' as u8),
        Element::MaxKeys => (7int, 'M' as u8),
        Element::IsTruncated => (11int, 'I' as u8),
        Element::ContinuationToken => (17int, 'C' as u8),
        Element::NextContinuationToken => (21int, 'N' as u8),
        Element::Contents => (8int, 'C' as u8),
        Element::Key => (3int, 'K' as u8),
        Element::LastModified => (12int, 'L' as u8),
        Element::Etag => (4int, 'E' as u8),
        Element::Size => (4int, 'S' as u8),
        Element::StorageClass => (12int, 'S' as u8),
    }
}

/// Element names are told apart by their shapes, and hold letters only.
pub proof fn lemma_names(element: Element)
    ensures
        element_name(element).len() == name_shape(element).0,
        element_name(element)[0] == name_shape(element).1,
        bytes::all(element_name(element), |b: u8| bytes::is_lowercase(b) || bytes::is_uppercase(b)),
{
    match element {
        Element::Root => {
            reveal_strlit("ListBucketResult");
            is_ascii_chars_encode_utf8("ListBucketResult"@);
        },
        Element::Name => {
            reveal_strlit("Name");
            is_ascii_chars_encode_utf8("Name"@);
        },
        Element::Prefix => {
            reveal_strlit("Prefix");
            is_ascii_chars_encode_utf8("Prefix"@);
        },
        Element::KeyCount => {
            reveal_strlit("KeyCount");
            is_ascii_chars_encode_utf8("KeyCount"@);
        },
        Element::MaxKeys => {
            reveal_strlit("MaxKeys");
            is_ascii_chars_encode_utf8("MaxKeys"@);
        },
        Element::IsTruncated => {
            reveal_strlit("IsTruncated");
            is_ascii_chars_encode_utf8("IsTruncated"@);
        },
        Element::ContinuationToken => {
            reveal_strlit("ContinuationToken");
            is_ascii_chars_encode_utf8("ContinuationToken"@);
        },
        Element::NextContinuationToken => {
            reveal_strlit("NextContinuationToken");
            is_ascii_chars_encode_utf8("NextContinuationToken"@);
        },
        Element::Contents => {
            reveal_strlit("Contents");
            is_ascii_chars_encode_utf8("Contents"@);
        },
        Element::Key => {
            reveal_strlit("Key");
            is_ascii_chars_encode_utf8("Key"@);
        },
        Element::LastModified => {
            reveal_strlit("LastModified");
            is_ascii_chars_encode_utf8("LastModified"@);
        },
        Element::Etag => {
            reveal_strlit("ETag");
            is_ascii_chars_encode_utf8("ETag"@);
        },
        Element::Size => {
            reveal_strlit("Size");
            is_ascii_chars_encode_utf8("Size"@);
        },
        Element::StorageClass => {
            reveal_strlit("StorageClass");
            is_ascii_chars_encode_utf8("StorageClass"@);
        },
    }
}

/// No two elements are written alike.
pub proof fn lemma_names_differ(a: Element, b: Element)
    requires
        element_name(a) == element_name(b),
    ensures
        a == b,
{
    lemma_names(a);
    lemma_names(b);
}

/// The element that the parent admits under its own name.
pub proof fn lemma_child(parent: Option<Element>, element: Element)
    requires
        is_child(parent, element),
    ensures
        child(parent, element_name(element)) == Ok::<Element, HttpError>(element),
{
    let found = choose|other: Element|
        is_child(parent, other) && #[trigger] element_name(other) == element_name(element);
    lemma_names_differ(found, element);
}

/// Whether a name is that of the given element.
fn is_named(name: &[u8], element: Element) -> (result: bool)
    ensures
        result == (name@ == element_name(element)),
{
    bytes::equal(name, element.name())
}

pub fn child_element(parent: Option<Element>, name: &[u8]) -> (result: Result<Element, HttpError>)
    ensures
        result == child(parent, name@),
{
    let element = match parent {
        None => {
            if is_named(name, Element::Root) {
                Element::Root
            } else {
                return Err(
                    HttpError::new(
                        HttpErrorKind::Protocol,
                        "S3 list XML has an invalid nesting shape",
                    ),
                );
            }
        },
        Some(Element::Root) => {
            if is_named(name, Element::Name) {
                Element::Name
            } else if is_named(name, Element::Prefix) {
                Element::Prefix
            } else if is_named(name, Element::KeyCount) {
                Element::KeyCount
            } else if is_named(name, Element::MaxKeys) {
                Element::MaxKeys
            } else if is_named(name, Element::IsTruncated) {
                Element::IsTruncated
            } else if is_named(name, Element::ContinuationToken) {
                Element::ContinuationToken
            } else if is_named(name, Element::NextContinuationToken) {
                Element::NextContinuationToken
            } else if is_named(name, Element::Contents) {
                Element::Contents
            } else {
                return Err(
                    HttpError::new(
                        HttpErrorKind::Protocol,
                        "S3 list XML contains an unexpected element",
                    ),
                );
            }
        },
        Some(Element::Contents) => {
            if is_named(name, Element::Key) {
                Element::Key
            } else if is_named(name, Element::LastModified) {
                Element::LastModified
            } else if is_named(name, Element::Etag) {
                Element::Etag
            } else if is_named(name, Element::Size) {
                Element::Size
            } else if is_named(name, Element::StorageClass) {
                Element::StorageClass
            } else {
                return Err(
                    HttpError::new(
                        HttpErrorKind::Protocol,
                        "S3 list XML contains an unexpected object field",
                    ),
                );
            }
        },
        _ => {
            return Err(
                HttpError::new(
                    HttpErrorKind::Protocol,
                    "S3 list XML has an invalid nesting shape",
                ),
            );
        },
    };
    proof {
        lemma_child(parent, element);
    }
    Ok(element)
}

} // verus!
