//! Which documents are pages, and which are not.

use sigil_s3::element::{child_element, Element};
use sigil_s3::error::{HttpError, HttpErrorKind};
use sigil_s3::list::{
    parse_list_page, parse_u32, parse_u64, ParsedListPage, ParsedListedObject,
    MAX_LIST_BODY_BYTES, MAX_LIST_XML_EVENTS,
};
use sigil_s3::uri::build_head_canonical_uri;
use sigil_s3::query::build_list_query;

fn protocol(message: &'static str) -> HttpError {
    HttpError { kind: HttpErrorKind::Protocol, status: None, message }
}

fn limit(message: &'static str) -> HttpError {
    HttpError { kind: HttpErrorKind::Limit, status: None, message }
}

fn parse(body: &str) -> Result<ParsedListPage, HttpError> {
    parse_list_page(body.as_bytes(), "results", "p", 2, None)
}

fn page(contents: &str) -> String {
    format!("<ListBucketResult><Name>results</Name><Prefix>p</Prefix><MaxKeys>2</MaxKeys>{contents}</ListBucketResult>")
}

fn escaped(text: &str) -> String {
    text.replace('&', "&amp;").replace('<', "&lt;").replace('>', "&gt;")
}

fn written(page: &ParsedListPage, bucket: &str, prefix: &str, max_keys: u32, token: Option<&str>) -> String {
    let mut output = format!(
        "<ListBucketResult><Name>{}</Name><Prefix>{}</Prefix><KeyCount>{}</KeyCount><MaxKeys>{max_keys}</MaxKeys><IsTruncated>{}</IsTruncated>",
        escaped(bucket),
        escaped(prefix),
        page.objects.len(),
        page.is_truncated
    );
    if let Some(token) = token {
        output.push_str(&format!("<ContinuationToken>{}</ContinuationToken>", escaped(token)));
    }
    if let Some(next) = &page.next_continuation_token {
        output.push_str(&format!("<NextContinuationToken>{}</NextContinuationToken>", escaped(next)));
    }
    for object in &page.objects {
        output.push_str(&format!("<Contents><Key>{}</Key>", escaped(&object.key)));
        if let Some(text) = &object.last_modified {
            output.push_str(&format!("<LastModified>{}</LastModified>", escaped(text)));
        }
        if let Some(text) = &object.etag {
            output.push_str(&format!("<ETag>{}</ETag>", escaped(text)));
        }
        output.push_str(&format!("<Size>{}</Size></Contents>", object.size));
    }
    output.push_str("</ListBucketResult>");
    output
}

#[test]
fn pages_that_are_written_read_back() {
    let pages = [
        ParsedListPage { objects: Vec::new(), is_truncated: false, next_continuation_token: None },
        ParsedListPage {
            objects: vec![
                ParsedListedObject {
                    key: "p&<>]]>\u{e9}\u{1f600}".to_owned(),
                    size: u64::MAX,
                    etag: Some(String::new()),
                    last_modified: Some("yesterday & before".to_owned()),
                },
                ParsedListedObject { key: "p".to_owned(), size: 0, etag: None, last_modified: None },
            ],
            is_truncated: true,
            next_continuation_token: Some("next & more".to_owned()),
        },
    ];
    for page in pages {
        for token in [None, Some("a<b"), Some("")] {
            let document = written(&page, "any bucket", "p", 2, token);
            let read = parse_list_page(document.as_bytes(), "any bucket", "p", 2, token);
            assert_eq!(read, Ok(page.clone()));
            if let Some(next) = page.next_continuation_token.as_deref() {
                assert!(build_list_query("p", 2, Some(next)).is_ok());
            }
            for object in &page.objects {
                assert!(build_head_canonical_uri("results", &object.key).is_ok());
            }
        }
    }
}

#[test]
fn references_stand_for_characters() {
    let document = page("<KeyCount>1</KeyCount><IsTruncated>false</IsTruncated><Contents><Key>p&#65;&#x42;&#+67;&#x+44;&apos;&quot;&#x1F600;&#10;</Key><Size>1</Size></Contents>");
    let read = parse(&document).expect("page");
    assert_eq!(read.objects[0].key, "pABCD'\"\u{1f600}\n");
    for reference in ["&#0;", "&#xD800;", "&#x110000;", "&#xFFFE;", "&#;", "&#x;", "&#-1;", "&nbsp;", "&AMP;", "&#4294967296;"] {
        let document = page(&format!("<KeyCount>{reference}</KeyCount>"));
        assert_eq!(
            parse(&document),
            Err(protocol("S3 list XML contains an unsupported entity reference")),
            "{reference}"
        );
    }
    for reference in ["&;", "&amp", "&#000000000000065;"] {
        assert_eq!(
            parse(&format!("<ListBucketResult>{reference}")),
            Err(protocol("S3 list XML entity reference is malformed"))
        );
    }
}

#[test]
fn declarations_stand_at_the_start_only() {
    let complete = page("<KeyCount>0</KeyCount><IsTruncated>false</IsTruncated>");
    for declaration in [
        "",
        "<?xml version=\"1.0\"?>",
        "<?xml version=\"1.0\" encoding=\"UTF-8\"?>",
        "<?xml version=\"1.0\" encoding=\"utf-8\"?>",
        "<?xml version='1.0'?>",
        "<?xml version='1.0' encoding='UTF-8'?>",
        "<?xml version='1.0' encoding='utf-8'?>",
        " \n",
    ] {
        assert!(parse(&format!("{declaration}{complete} \r\n")).is_ok(), "{declaration}");
    }
    for (document, message) in [
        (format!(" <?xml version='1.0'?>{complete}"), "S3 list XML declaration is misplaced"),
        (format!("<?xml version='1.1'?>{complete}"), "S3 list XML uses an unsupported declaration"),
        ("<?xml version='1.0'".to_owned(), "S3 list XML declaration is malformed"),
        (format!("<?xml {}?>", " ".repeat(100)), "S3 list XML declaration is malformed"),
        (format!("<?php?>{complete}"), "S3 list XML contains unsupported markup"),
        (format!("<!-- x -->{complete}"), "S3 list XML contains unsupported markup"),
        (format!("<!DOCTYPE x>{complete}"), "S3 list XML contains unsupported markup"),
        (page("<![CDATA[x]]>"), "S3 list XML contains unsupported markup"),
        (page("]]>"), "S3 list XML contains unsupported markup"),
    ] {
        assert_eq!(parse(&document), Err(protocol(message)), "{document}");
    }
}

#[test]
fn tags_are_strict() {
    for root in [
        "<ListBucketResult xmlns=\"http://s3.amazonaws.com/doc/2006-03-01/\">",
        "<ListBucketResult xmlns='http://s3.amazonaws.com/doc/2006-03-01/'>",
    ] {
        let document = page("<KeyCount>0</KeyCount><IsTruncated>false</IsTruncated>")
            .replace("<ListBucketResult>", root);
        assert!(parse(&document).is_ok());
    }
    for (document, message) in [
        ("<ListBucketResult x='1'>", "S3 list XML contains unexpected attributes"),
        ("<ListBucketResult >", "S3 list XML contains unexpected attributes"),
        ("<ListBucketResult><Name a='b'>", "S3 list XML contains unexpected attributes"),
        ("<>", "S3 list XML start element is malformed"),
        ("< a>", "S3 list XML start element is malformed"),
        ("<a:b>", "S3 list XML start element is malformed"),
        ("<ListBucketResult", "S3 list XML start element is malformed"),
        ("</>", "S3 list XML end element is malformed"),
        ("</a b>", "S3 list XML end element is malformed"),
        ("</ListBucketResult>", "S3 list XML contains an unmatched end element"),
        ("<Name>", "S3 list XML has an invalid nesting shape"),
        ("<ListBucketResult><Key>", "S3 list XML contains an unexpected element"),
        ("<ListBucketResult><Contents><Name>", "S3 list XML contains an unexpected object field"),
        ("<ListBucketResult><Name><Name>", "S3 list XML has an invalid nesting shape"),
        ("<ListBucketResult><Name></Prefix>", "S3 list XML end element does not match"),
        ("<ListBucketResult/><ListBucketResult/>", "S3 list XML contains data after the root"),
        ("x", "S3 list XML contains text outside the root"),
        ("<ListBucketResult>x", "S3 list XML contains text in a container"),
        ("", "S3 list XML has no complete root"),
        ("<ListBucketResult>", "S3 list XML has no complete root"),
        ("\u{fffe}", "S3 list XML contains an invalid character"),
        ("\u{1}", "S3 list XML contains an invalid character"),
    ] {
        assert_eq!(parse(document), Err(protocol(message)), "{document}");
    }
    let long_name = format!("<{}>", "a".repeat(65));
    assert_eq!(parse(&long_name), Err(protocol("S3 list XML start element is malformed")));
    let long_tag = format!("<a{}>", " ".repeat(260));
    assert_eq!(parse(&long_tag), Err(protocol("S3 list XML start element is malformed")));
}

#[test]
fn fields_come_once_and_whole() {
    for (contents, message) in [
        ("<MaxKeys>2</MaxKeys>", "S3 list XML contains a duplicate field"),
        ("<KeyCount>01</KeyCount>", "S3 list XML contains an invalid integer"),
        ("<KeyCount/>", "S3 list XML contains an invalid integer"),
        ("<KeyCount>+1</KeyCount>", "S3 list XML contains an invalid integer"),
        ("<KeyCount>4294967296</KeyCount>", "S3 list XML integer is out of range"),
        ("<IsTruncated>TRUE</IsTruncated>", "S3 list XML has an invalid truncation flag"),
        ("<Contents/>", "S3 list XML object has no key"),
        ("<Contents><Key/><Size>1</Size></Contents>", "S3 list XML object has no key"),
        ("<Contents><Key>p</Key></Contents>", "S3 list XML object has no size"),
        ("<Contents><Size>1</Size><Size>1</Size></Contents>", "S3 list XML contains a duplicate field"),
        ("<Contents><StorageClass/></Contents>", "S3 list XML contains an empty storage class"),
        ("<Contents><StorageClass>A</StorageClass><StorageClass>A</StorageClass></Contents>", "S3 list XML contains a duplicate field"),
        ("<IsTruncated>false</IsTruncated>", "S3 list XML key count does not match the returned objects"),
        ("<KeyCount>0</KeyCount>", "S3 list XML has no truncation flag"),
        ("<KeyCount>0</KeyCount><IsTruncated>true</IsTruncated>", "S3 list XML truncation and continuation token disagree"),
        ("<KeyCount>0</KeyCount><IsTruncated>true</IsTruncated><NextContinuationToken/>", "S3 list XML truncation and continuation token disagree"),
        ("<KeyCount>0</KeyCount><IsTruncated>false</IsTruncated><NextContinuationToken>x</NextContinuationToken>", "S3 list XML truncation and continuation token disagree"),
        ("<ContinuationToken>x</ContinuationToken>", "S3 list XML does not match the requested continuation token"),
        ("<KeyCount>1</KeyCount><Contents><Key>q</Key><Size>1</Size></Contents>", "S3 list XML contains an out-of-prefix or duplicate key"),
        ("<KeyCount>2</KeyCount><Contents><Key>p</Key><Size>1</Size></Contents><Contents><Key>p</Key><Size>2</Size></Contents>", "S3 list XML contains an out-of-prefix or duplicate key"),
    ] {
        assert_eq!(parse(&page(contents)), Err(protocol(message)), "{contents}");
    }
    let answer = page("<KeyCount>0</KeyCount><IsTruncated>false</IsTruncated>");
    assert!(parse(&answer).is_ok());
    assert_eq!(
        parse_list_page(answer.as_bytes(), "other", "p", 2, None),
        Err(protocol("S3 list XML does not match the requested bucket or prefix"))
    );
    assert_eq!(
        parse_list_page(answer.as_bytes(), "results", "p", 3, None),
        Err(protocol("S3 list XML does not match the requested max-keys"))
    );
}

#[test]
fn documents_are_bounded() {
    for (contents, message) in [
        (format!("<KeyCount>{}</KeyCount>", "1".repeat(21)), "S3 list XML field exceeds its byte limit"),
        (format!("<Contents><Key>{}</Key>", "k".repeat(1025)), "S3 list XML field exceeds its byte limit"),
        (" ".repeat(3 * 1024 * 1024), "S3 list XML exceeds the text byte limit"),
        ("<Contents><Key>p</Key><Size>0</Size></Contents>".repeat(MAX_LIST_XML_EVENTS / 8 + 1), "S3 list XML exceeds the event limit"),
        ("<KeyCount>3</KeyCount>".to_owned() + &"<Contents><Key>p</Key><Size>0</Size></Contents>".repeat(3), "S3 list response exceeds the requested object limit"),
    ] {
        assert_eq!(parse(&page(&contents)), Err(limit(message)));
    }
    let longest = " ".repeat(MAX_LIST_BODY_BYTES + 1);
    assert_eq!(parse(&longest), Err(limit("S3 list body exceeds the byte limit")));
    assert_eq!(
        parse_list_page(b"<ListBucketResult>\xc3</ListBucketResult>", "results", "p", 2, None),
        Err(protocol("S3 list XML text is not valid UTF-8"))
    );
}

#[test]
fn numbers_are_canonical() {
    assert_eq!(parse_u32(b"0"), Ok(0));
    assert_eq!(parse_u32(b"4294967295"), Ok(u32::MAX));
    assert_eq!(parse_u64(b"18446744073709551615"), Ok(u64::MAX));
    assert_eq!(parse_u64(b"18446744073709551616"), Err(protocol("S3 list XML integer is out of range")));
    assert_eq!(parse_u64(b"00"), Err(protocol("S3 list XML contains an invalid integer")));
}

#[test]
fn elements_have_their_places() {
    assert_eq!(child_element(None, b"ListBucketResult"), Ok(Element::Root));
    assert_eq!(child_element(Some(Element::Root), b"Contents"), Ok(Element::Contents));
    assert_eq!(child_element(Some(Element::Contents), b"ETag"), Ok(Element::Etag));
    assert_eq!(Element::Etag.name(), b"ETag");
    assert!(child_element(Some(Element::Root), b"ETag").is_err());
    assert!(child_element(Some(Element::Key), b"Key").is_err());
    assert_eq!(Element::Name.text_limit(), 63);
    assert!(Element::Key.is_scalar() && !Element::Contents.is_scalar());
}
