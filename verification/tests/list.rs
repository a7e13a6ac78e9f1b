//! Pages of listings.

use sigil_s3::error::HttpErrorKind;
use sigil_s3::list::{
    parse_list_page, ParsedListPage, ParsedListedObject, MAX_LIST_BODY_BYTES, MAX_LIST_KEYS,
};


fn response(contents: &str, tail: &str, key_count: usize, max_keys: u32) -> String {
    format!(
        "<?xml version=\"1.0\" encoding=\"UTF-8\"?><ListBucketResult><Name>results</Name><Prefix>exports/</Prefix><KeyCount>{key_count}</KeyCount><MaxKeys>{max_keys}</MaxKeys>{contents}<IsTruncated>{}</IsTruncated>{}</ListBucketResult>",
        if tail.is_empty() { "false" } else { "true" },
        tail
    )
}

#[test]
fn parses_empty_and_exact_ordered_typed_pages() {
    let empty = response("", "", 0, 3);
    assert_eq!(
        parse_list_page(empty.as_bytes(), "results", "exports/", 3, None).expect("empty page"),
        ParsedListPage {
            objects: Vec::new(),
            is_truncated: false,
            next_continuation_token: None,
        }
    );

    let contents = &[
        "<Contents><Key>exports/space %25/é&amp;x.parquet</Key>",
        "<LastModified>2026-09-01T22:01:02.003Z</LastModified>",
        "<ETag>&quot;abc-2&quot;</ETag><Size>18446744073709551615</Size>",
        "<StorageClass>STANDARD</StorageClass></Contents>",
        "<Contents><Key>exports/z.parquet</Key><Size>0</Size></Contents>",
    ]
    .concat();
    let page = parse_list_page(
        response(contents, "", 2, 3).as_bytes(),
        "results",
        "exports/",
        3,
        None,
    )
    .expect("typed page");
    assert_eq!(
        page.objects,
        vec![
            ParsedListedObject {
                key: "exports/space %25/é&x.parquet".to_owned(),
                size: u64::MAX,
                etag: Some("\"abc-2\"".to_owned()),
                last_modified: Some("2026-09-01T22:01:02.003Z".to_owned()),
            },
            ParsedListedObject {
                key: "exports/z.parquet".to_owned(),
                size: 0,
                etag: None,
                last_modified: None,
            },
        ]
    );
}

#[test]
fn pagination_is_caller_driven_and_explicit() {
    let contents = "<Contents><Key>exports/a</Key><Size>1</Size></Contents>";
    let first = response(
        contents,
        "<NextContinuationToken>opaque/next+2</NextContinuationToken>",
        1,
        1,
    );
    let first =
        parse_list_page(first.as_bytes(), "results", "exports/", 1, None).expect("first page");
    assert!(first.is_truncated);
    assert_eq!(
        first.next_continuation_token.as_deref(),
        Some("opaque/next+2")
    );

    let second = "<ListBucketResult><Name>results</Name><Prefix>exports/</Prefix><KeyCount>0</KeyCount><MaxKeys>1</MaxKeys><ContinuationToken>opaque/next+2</ContinuationToken><IsTruncated>false</IsTruncated></ListBucketResult>";
    assert!(
        parse_list_page(
            second.as_bytes(),
            "results",
            "exports/",
            1,
            Some("opaque/next+2")
        )
        .is_ok()
    );
}

#[test]
fn object_and_disclosure_limits_return_no_partial_page() {
    let one = "<Contents><Key>exports/a</Key><Size>1</Size></Contents>";
    let over = response(&format!("{one}{one}"), "", 2, 1);
    assert_eq!(
        parse_list_page(over.as_bytes(), "results", "exports/", 1, None)
            .expect_err("max plus one must fail")
            .kind,
        HttpErrorKind::Limit
    );
    for tail in ["<NextContinuationToken>token</NextContinuationToken>", ""] {
        let mut xml = response(one, tail, 1, 1);
        if tail.is_empty() {
            xml = xml.replace(
                "<IsTruncated>false</IsTruncated>",
                "<IsTruncated>true</IsTruncated>",
            );
        } else {
            xml = xml.replace(
                "<IsTruncated>true</IsTruncated>",
                "<IsTruncated>false</IsTruncated>",
            );
        }
        assert!(parse_list_page(xml.as_bytes(), "results", "exports/", 1, None).is_err());
    }
}

#[test]
fn accepts_exactly_one_thousand_objects_and_rejects_one_more() {
    let contents = (0..MAX_LIST_KEYS).fold(String::new(), |mut output, index| {
        output.push_str(&format!(
            "<Contents><Key>exports/{index:04}</Key><Size>{index}</Size></Contents>"
        ));
        output
    });
    let exact = response(
        &contents,
        "<NextContinuationToken>opaque-next</NextContinuationToken>",
        MAX_LIST_KEYS as usize,
        MAX_LIST_KEYS,
    );
    let page = parse_list_page(exact.as_bytes(), "results", "exports/", MAX_LIST_KEYS, None)
        .expect("the documented maximum page");
    assert_eq!(page.objects.len(), MAX_LIST_KEYS as usize);
    assert!(page.is_truncated);

    let over_contents =
        format!("{contents}<Contents><Key>exports/1000</Key><Size>1000</Size></Contents>");
    let over = response(
        &over_contents,
        "<NextContinuationToken>opaque-next</NextContinuationToken>",
        MAX_LIST_KEYS as usize + 1,
        MAX_LIST_KEYS,
    );
    assert_eq!(
        parse_list_page(over.as_bytes(), "results", "exports/", MAX_LIST_KEYS, None,)
            .expect_err("max plus one must return no page")
            .kind,
        HttpErrorKind::Limit
    );
}

#[test]
fn hostile_xml_is_bounded_and_rejected() {
    let fixtures = [
        "<!DOCTYPE x [<!ENTITY y SYSTEM \"file:///etc/passwd\">]><ListBucketResult></ListBucketResult>",
        "<ListBucketResult><Name>&external;</Name></ListBucketResult>",
        "<ListBucketResult><Name>results</Name><Name>results</Name></ListBucketResult>",
        "<ListBucketResult><Contents><Key><Nested>x</Nested></Key></Contents></ListBucketResult>",
        "<ListBucketResult><Unknown>x</Unknown></ListBucketResult>",
        "<ListBucketResult><Name>results</Prefix></ListBucketResult>",
    ];
    for fixture in fixtures {
        assert!(
            parse_list_page(fixture.as_bytes(), "results", "exports/", 1, None).is_err(),
            "accepted hostile fixture: {fixture}"
        );
    }
    assert_eq!(
        parse_list_page(&[0xff, 0xfe], "results", "exports/", 1, None)
            .expect_err("invalid UTF-8 must fail")
            .kind,
        HttpErrorKind::Protocol
    );
    let oversized = vec![b'x'; MAX_LIST_BODY_BYTES + 1];
    assert_eq!(
        parse_list_page(&oversized, "results", "exports/", 1, None)
            .expect_err("oversized body must fail")
            .kind,
        HttpErrorKind::Limit
    );
}

#[test]
fn deterministic_xml_mutation_corpus_never_panics() {
    let seed = response(
        "<Contents><Key>exports/a</Key><Size>1</Size></Contents>",
        "",
        1,
        1,
    );
    let positions = [
        0,
        1,
        seed.len() / 4,
        seed.len() / 2,
        seed.len().saturating_sub(1),
        seed.len(),
    ];
    for position in positions {
        for mutation in [b'\0', b'&', b'<', b'>', b'%', 0xff] {
            let mut candidate = seed.as_bytes().to_vec();
            candidate.insert(position, mutation);
            let _bounded_result = parse_list_page(&candidate, "results", "exports/", 1, None);
        }
    }
}
