//! The queries of listings, built here or signed elsewhere.

use crate::bytes;
use crate::element::{MAX_CONTINUATION_TOKEN_BYTES, MAX_LIST_PREFIX_BYTES};
use crate::error;
use crate::error::{HttpError, HttpErrorKind};
use crate::list;
use crate::list::MAX_LIST_KEYS;
use crate::number;
use crate::text;
use crate::uri;
use vstd::prelude::*;
use vstd::string::*;
use vstd::utf8::*;

verus! {

pub const MAX_QUERY_BYTES: usize = 8 * 1024;

/// Whether the inputs of a listing are in range, or the first error.
pub open spec fn list_inputs(prefix: Seq<u8>, max_keys: u32, token: Option<Seq<u8>>) -> Result<
    (),
    HttpError,
> {
    if prefix.len() == 0 || prefix.len() > MAX_LIST_PREFIX_BYTES {
        Err(
            HttpError::new(
                HttpErrorKind::InvalidRequest,
                "S3 list prefix is outside the supported range",
            ),
        )
    } else if max_keys < 1 || max_keys > MAX_LIST_KEYS {
        Err(
            HttpError::new(
                HttpErrorKind::Limit,
                "S3 list max-keys is outside the supported range",
            ),
        )
    } else if token matches Some(token) && (token.len() == 0 || token.len()
        > MAX_CONTINUATION_TOKEN_BYTES) {
        Err(
            HttpError::new(
                HttpErrorKind::Limit,
                "S3 continuation token is outside the supported range",
            ),
        )
    } else {
        Ok(())
    }
}

pub fn validate_list_inputs(
    prefix: &str,
    max_keys: u32,
    continuation_token: Option<&str>,
) -> (result: Result<(), HttpError>)
    ensures
        result == list_inputs(
            prefix.spec_bytes(),
            max_keys,
            list::optional_bytes(continuation_token),
        ),
{
    let prefix = prefix.as_bytes();
    if prefix.is_empty() || prefix.len() > MAX_LIST_PREFIX_BYTES {
        return Err(
            HttpError::new(
                HttpErrorKind::InvalidRequest,
                "S3 list prefix is outside the supported range",
            ),
        );
    }
    if max_keys < 1 || max_keys > MAX_LIST_KEYS {
        return Err(
            HttpError::new(
                HttpErrorKind::Limit,
                "S3 list max-keys is outside the supported range",
            ),
        );
    }
    if let Some(token) = continuation_token {
        let token = token.as_bytes();
        if token.is_empty() || token.len() > MAX_CONTINUATION_TOKEN_BYTES {
            return Err(
                HttpError::new(
                    HttpErrorKind::Limit,
                    "S3 continuation token is outside the supported range",
                ),
            );
        }
    }
    Ok(())
}

/// The fields of a listing's query in the order of their names.
pub open spec fn query_text(prefix: Seq<u8>, max_keys: u32, token: Option<Seq<u8>>) -> Seq<u8> {
    let fields = "list-type=2&max-keys=".spec_bytes() + number::decimal(max_keys as nat)
        + "&prefix=".spec_bytes() + uri::encoded_value(prefix);
    match token {
        Some(token) => "continuation-token=".spec_bytes() + uri::encoded_value(token)
            + "&".spec_bytes() + fields,
        None => fields,
    }
}

/// The query of a listing.
pub open spec fn list_query(prefix: Seq<u8>, max_keys: u32, token: Option<Seq<u8>>) -> Result<
    Seq<u8>,
    HttpError,
> {
    match list_inputs(prefix, max_keys, token) {
        Err(error) => Err(error),
        Ok(()) => {
            let query = query_text(prefix, max_keys, token);
            if query.len() > MAX_QUERY_BYTES {
                Err(HttpError::new(HttpErrorKind::Limit, "S3 list query exceeds the byte limit"))
            } else {
                Ok(query)
            }
        },
    }
}

/// Decimal digits are digits.
proof fn lemma_decimal_digits(n: nat)
    ensures
        bytes::all(number::decimal(n), |b: u8| bytes::is_digit(b)),
{
    number::law_decimal_reads_back(n, n);
    assert forall|i: int| 0 <= i < number::decimal(n).len() implies bytes::is_digit(
        #[trigger] number::decimal(n)[i],
    ) by {
        assert(number::is_radix_digit(number::decimal(n)[i], 10));
    }
}

/// The query of a listing is canonical: visible ASCII, and every percent sign
/// begins an escape with two upper-case digits.
pub proof fn law_list_queries_are_canonical(prefix: Seq<u8>, max_keys: u32, token: Option<Seq<u8>>)
    ensures
        uri::is_canonical(query_text(prefix, max_keys, token)),
{
    reveal_strlit("list-type=2&max-keys=");
    is_ascii_chars_encode_utf8("list-type=2&max-keys="@);
    reveal_strlit("&prefix=");
    is_ascii_chars_encode_utf8("&prefix="@);
    let keep = |b: u8| uri::is_unreserved(b);
    let digits = number::decimal(max_keys as nat);
    let head = "list-type=2&max-keys=".spec_bytes();
    let middle = "&prefix=".spec_bytes();
    lemma_decimal_digits(max_keys as nat);
    assert(uri::is_canonical(digits)) by {
        assert forall|i: int| 0 <= i < digits.len() implies bytes::is_graphic(#[trigger] digits[i])
            && digits[i] != '%' as u8 by {
            assert(bytes::is_digit(digits[i]));
        }
    }
    uri::law_encoding_is_canonical(prefix, keep);
    assert(uri::is_canonical(head));
    assert(uri::is_canonical(middle));
    uri::lemma_canonical_concat(head, digits);
    uri::lemma_canonical_concat(head + digits, middle);
    uri::lemma_canonical_concat(head + digits + middle, uri::encoded_value(prefix));
    if let Some(value) = token {
        reveal_strlit("continuation-token=");
        is_ascii_chars_encode_utf8("continuation-token="@);
        reveal_strlit("&");
        is_ascii_chars_encode_utf8("&"@);
        let name = "continuation-token=".spec_bytes();
        let separator = "&".spec_bytes();
        let encoded = uri::encoded_value(value);
        uri::law_encoding_is_canonical(value, keep);
        assert(uri::is_canonical(name));
        assert(uri::is_canonical(separator));
        uri::lemma_canonical_concat(name, encoded);
        uri::lemma_canonical_concat(name + encoded, separator);
        uri::lemma_canonical_concat(
            name + encoded + separator,
            head + digits + middle + uri::encoded_value(prefix),
        );
    }
}

/// Canonical text is a text.
pub proof fn lemma_canonical_is_text(s: Seq<u8>)
    requires
        uri::is_canonical(s),
    ensures
        bytes::is_ascii(s),
        valid_utf8(s),
{
    assert forall|i: int| 0 <= i < s.len() implies #[trigger] s[i] < 0x80 by {
        assert(bytes::is_graphic(s[i]));
    }
    text::lemma_ascii_is_utf8(s);
}

/// Builds the canonical query of one page of a listing. Fields come in the
/// byte order of their names, with the caller's optional continuation.
pub fn build_list_query(prefix: &str, max_keys: u32, continuation_token: Option<&str>) -> (result:
    Result<String, HttpError>)
    ensures
        error::agrees_text(
            result,
            list_query(prefix.spec_bytes(), max_keys, list::optional_bytes(continuation_token)),
        ),
{
    validate_list_inputs(prefix, max_keys, continuation_token)?;
    let mut query: Vec<u8> = Vec::new();
    if let Some(token) = continuation_token {
        text::append(&mut query, "continuation-token=".as_bytes());
        uri::push_encoded_query_value(&mut query, token.as_bytes());
        text::append(&mut query, "&".as_bytes());
    }
    text::append(&mut query, "list-type=2&max-keys=".as_bytes());
    number::push_decimal(&mut query, max_keys);
    text::append(&mut query, "&prefix=".as_bytes());
    uri::push_encoded_query_value(&mut query, prefix.as_bytes());
    let ghost token = list::optional_bytes(continuation_token);
    proof {
        assert(query@ =~= query_text(prefix.spec_bytes(), max_keys, token));
        law_list_queries_are_canonical(prefix.spec_bytes(), max_keys, token);
        lemma_canonical_is_text(query@);
    }
    if query.len() > MAX_QUERY_BYTES {
        return Err(HttpError::new(HttpErrorKind::Limit, "S3 list query exceeds the byte limit"));
    }
    Ok(text::utf8_string(query.as_slice()))
}

/// A byte that may stand in a presigned query.
#[verifier::allow_in_spec]
pub fn is_query_byte(b: u8) -> bool
    returns
        bytes::is_graphic(b) && b != '#' as u8,
{
    bytes::is_graphic(b) && b != '#' as u8
}

/// Visible ASCII without a number sign that does not begin with a question
/// mark, of at most [`MAX_QUERY_BYTES`] bytes.
pub open spec fn is_presigned_query(query: Seq<u8>) -> bool {
    &&& 0 < query.len() <= MAX_QUERY_BYTES
    &&& query[0] != '?' as u8
    &&& bytes::all(query, |b: u8| is_query_byte(b))
}

pub fn valid_presigned_query(query: &[u8]) -> (result: bool)
    ensures
        result == is_presigned_query(query@),
{
    !query.is_empty() && query.len() <= MAX_QUERY_BYTES && query[0] != '?' as u8
        && bytes::all_bytes(query, is_query_byte, Ghost(|b: u8| is_query_byte(b)))
}

/// The name of a query field: what stands before its first equals sign.
pub open spec fn field_name(pair: Seq<u8>) -> Option<Seq<u8>> {
    match bytes::first_index(pair, seq!['=' as u8]) {
        Some(i) => Some(bytes::before(pair, i)),
        None => None,
    }
}

/// The value of a query field: what follows its first equals sign.
pub open spec fn field_value(pair: Seq<u8>) -> Option<Seq<u8>> {
    match bytes::first_index(pair, seq!['=' as u8]) {
        Some(i) => Some(bytes::after(pair, i + 1)),
        None => None,
    }
}

/// Whether every field has a nonempty name, and no name comes twice.
pub open spec fn names_are_distinct(pairs: Seq<Seq<u8>>) -> bool {
    &&& forall|i: int|
        0 <= i < pairs.len() ==> (field_name(#[trigger] pairs[i]) matches Some(name) && name.len()
            > 0)
    &&& forall|i: int, j: int|
        0 <= i < j < pairs.len() ==> field_name(#[trigger] pairs[i]) != field_name(
            #[trigger] pairs[j],
        )
}

/// Whether a field with this name and value is among the fields.
pub open spec fn has_field(pairs: Seq<Seq<u8>>, name: Seq<u8>, value: Seq<u8>) -> bool {
    exists|i: int|
        0 <= i < pairs.len() && field_name(#[trigger] pairs[i]) == Some(name) && field_value(
            pairs[i],
        ) == Some(value)
}

/// Whether a field with this name is among the fields.
pub open spec fn has_name(pairs: Seq<Seq<u8>>, name: Seq<u8>) -> bool {
    exists|i: int| 0 <= i < pairs.len() && field_name(#[trigger] pairs[i]) == Some(name)
}

/// Whether a presigned query asks for exactly this listing, besides fields of
/// other names.
pub open spec fn is_query_for(
    query: Seq<u8>,
    prefix: Seq<u8>,
    max_keys: u32,
    token: Option<Seq<u8>>,
) -> bool {
    let pairs = bytes::split_on(query, seq!['&' as u8]);
    &&& is_presigned_query(query)
    &&& list_inputs(prefix, max_keys, token) is Ok
    &&& names_are_distinct(pairs)
    &&& has_field(pairs, "list-type".spec_bytes(), "2".spec_bytes())
    &&& has_field(pairs, "max-keys".spec_bytes(), number::decimal(max_keys as nat))
    &&& has_field(pairs, "prefix".spec_bytes(), uri::encoded_value(prefix))
    &&& match token {
        Some(token) => has_field(
            pairs,
            "continuation-token".spec_bytes(),
            uri::encoded_value(token),
        ),
        None => !has_name(pairs, "continuation-token".spec_bytes()),
    }
}

/// The name and the value of a query field.
fn split_field<'a>(pair: &'a [u8]) -> (result: Option<(&'a [u8], &'a [u8])>)
    ensures
        match result {
            Some((name, value)) => field_name(pair@) == Some(name@) && field_value(pair@) == Some(
                value@,
            ),
            None => field_name(pair@) is None && field_value(pair@) is None,
        },
{
    let mark: [u8; 1] = ['=' as u8];
    assert(mark@ =~= seq!['=' as u8]);
    match bytes::find(pair, &mark) {
        Some(i) => Some((&pair[0..i], &pair[i + 1..pair.len()])),
        None => None,
    }
}

/// The names and values of all fields, where no name is empty or comes twice.
fn split_fields<'a>(pairs: &Vec<&'a [u8]>) -> (result: Option<Vec<(&'a [u8], &'a [u8])>>)
    ensures
        match result {
            Some(fields) => {
                &&& names_are_distinct(bytes::pieces(pairs@))
                &&& fields@.len() == pairs@.len()
                &&& forall|i: int|
                    0 <= i < fields@.len() ==> field_name(pairs@[i]@) == Some(
                        (#[trigger] fields@[i]).0@,
                    ) && field_value(pairs@[i]@) == Some(fields@[i].1@)
            },
            None => !names_are_distinct(bytes::pieces(pairs@)),
        },
{
    let ghost all = bytes::pieces(pairs@);
    let mut fields: Vec<(&'a [u8], &'a [u8])> = Vec::new();
    let mut i: usize = 0;
    while i < pairs.len()
        invariant
            i <= pairs@.len(),
            all == bytes::pieces(pairs@),
            fields@.len() == i,
            forall|k: int|
                0 <= k < fields@.len() ==> field_name(pairs@[k]@) == Some((#[trigger] fields@[k]).0@)
                    && field_value(pairs@[k]@) == Some(fields@[k].1@),
            forall|k: int|
                0 <= k < i ==> (field_name(#[trigger] all[k]) matches Some(name) && name.len() > 0),
            forall|j: int, k: int|
                0 <= j < k < i ==> field_name(#[trigger] all[j]) != field_name(#[trigger] all[k]),
        decreases pairs.len() - i,
    {
        let pair: &'a [u8] = pairs[i];
        assert(all[i as int] == pair@);
        let (name, value) = match split_field(pair) {
            None => {
                return None;
            },
            Some(field) => field,
        };
        if name.is_empty() {
            return None;
        }
        let mut j: usize = 0;
        while j < i
            invariant
                j <= i < pairs@.len(),
                i == fields@.len(),
                all == bytes::pieces(pairs@),
                field_name(all[i as int]) == Some(name@),
                forall|k: int|
                    0 <= k < fields@.len() ==> field_name(pairs@[k]@) == Some(
                        (#[trigger] fields@[k]).0@,
                    ),
                forall|k: int|
                    0 <= k < j ==> field_name(#[trigger] all[k]) != field_name(all[i as int]),
            decreases i - j,
        {
            assert(all[j as int] == pairs@[j as int]@);
            assert(field_name(pairs@[j as int]@) == Some(fields@[j as int].0@));
            if bytes::equal(fields[j].0, name) {
                return None;
            }
            j += 1;
        }
        fields.push((name, value));
        i += 1;
    }
    Some(fields)
}

/// The value of the field with this name.
fn lookup<'a>(fields: &Vec<(&'a [u8], &'a [u8])>, name: &[u8]) -> (result: Option<&'a [u8]>)
    ensures
        match result {
            Some(value) => exists|i: int|
                0 <= i < fields@.len() && (#[trigger] fields@[i]).0@ == name@ && fields@[i].1@
                    == value@,
            None => forall|i: int|
                0 <= i < fields@.len() ==> (#[trigger] fields@[i]).0@ != name@,
        },
{
    let mut i: usize = 0;
    while i < fields.len()
        invariant
            i <= fields@.len(),
            forall|k: int| 0 <= k < i ==> (#[trigger] fields@[k]).0@ != name@,
        decreases fields.len() - i,
    {
        if bytes::equal(fields[i].0, name) {
            return Some(fields[i].1);
        }
        i += 1;
    }
    None
}

/// Whether the field with this name has this value.
fn holds(fields: &Vec<(&[u8], &[u8])>, name: &[u8], value: &[u8], Ghost(pairs): Ghost<
    Seq<Seq<u8>>,
>) -> (result: bool)
    requires
        names_are_distinct(pairs),
        fields@.len() == pairs.len(),
        forall|i: int|
            0 <= i < fields@.len() ==> field_name(pairs[i]) == Some((#[trigger] fields@[i]).0@)
                && field_value(pairs[i]) == Some(fields@[i].1@),
    ensures
        result == has_field(pairs, name@, value@),
{
    match lookup(fields, name) {
        None => {
            proof {
                if has_field(pairs, name@, value@) {
                    let i = choose|i: int|
                        0 <= i < pairs.len() && field_name(#[trigger] pairs[i]) == Some(name@)
                            && field_value(pairs[i]) == Some(value@);
                    assert(fields@[i].0@ == name@);
                }
            }
            false
        },
        Some(found) => {
            let result = bytes::equal(found, value);
            proof {
                let i = choose|i: int|
                    0 <= i < fields@.len() && (#[trigger] fields@[i]).0@ == name@ && fields@[i].1@
                        == found@;
                assert(field_name(pairs[i]) == Some(name@));
                if has_field(pairs, name@, value@) {
                    let j = choose|j: int|
                        0 <= j < pairs.len() && field_name(#[trigger] pairs[j]) == Some(name@)
                            && field_value(pairs[j]) == Some(value@);
                    assert(fields@[j].0@ == name@);
                    assert(i == j);
                }
            }
            result
        },
    }
}

/// Whether a presigned query asks for exactly this listing.
pub fn presigned_list_query_matches(
    query: &str,
    prefix: &str,
    max_keys: u32,
    continuation_token: Option<&str>,
) -> (result: bool)
    ensures
        result == is_query_for(
            query.spec_bytes(),
            prefix.spec_bytes(),
            max_keys,
            list::optional_bytes(continuation_token),
        ),
{
    let query = query.as_bytes();
    if !valid_presigned_query(query) || validate_list_inputs(
        prefix,
        max_keys,
        continuation_token,
    ).is_err() {
        return false;
    }
    let mark: [u8; 1] = ['&' as u8];
    assert(mark@ =~= seq!['&' as u8]);
    let pairs: Vec<&[u8]> = bytes::split(query, &mark);
    let ghost all = bytes::pieces(pairs@);
    let fields = match split_fields(&pairs) {
        None => {
            return false;
        },
        Some(fields) => fields,
    };
    assert forall|i: int| 0 <= i < fields@.len() implies field_name(all[i]) == Some(
        (#[trigger] fields@[i]).0@,
    ) && field_value(all[i]) == Some(fields@[i].1@) by {
        assert(all[i] == pairs@[i]@);
    }
    let mut encoded_prefix: Vec<u8> = Vec::new();
    uri::push_encoded_query_value(&mut encoded_prefix, prefix.as_bytes());
    assert(encoded_prefix@ =~= uri::encoded_value(prefix.spec_bytes()));
    let mut expected_max_keys: Vec<u8> = Vec::new();
    number::push_decimal(&mut expected_max_keys, max_keys);
    assert(expected_max_keys@ =~= number::decimal(max_keys as nat));
    if !holds(&fields, "list-type".as_bytes(), "2".as_bytes(), Ghost(all)) || !holds(
        &fields,
        "max-keys".as_bytes(),
        expected_max_keys.as_slice(),
        Ghost(all),
    ) || !holds(&fields, "prefix".as_bytes(), encoded_prefix.as_slice(), Ghost(all)) {
        return false;
    }
    match continuation_token {
        None => {
            let found = lookup(&fields, "continuation-token".as_bytes());
            proof {
                let name = "continuation-token".spec_bytes();
                if has_name(all, name) {
                    let i = choose|i: int|
                        0 <= i < all.len() && field_name(#[trigger] all[i]) == Some(name);
                    assert(fields@[i].0@ == name);
                }
                if found is Some {
                    let i = choose|i: int|
                        0 <= i < fields@.len() && (#[trigger] fields@[i]).0@ == name && fields@[i].1@
                            == found->0@;
                    assert(field_name(all[i]) == Some(name));
                }
            }
            found.is_none()
        },
        Some(token) => {
            let mut encoded: Vec<u8> = Vec::new();
            uri::push_encoded_query_value(&mut encoded, token.as_bytes());
            assert(encoded@ =~= uri::encoded_value(token.spec_bytes()));
            holds(&fields, "continuation-token".as_bytes(), encoded.as_slice(), Ghost(all))
        },
    }
}

/// A field that is written as its name, an equals sign and its value.
proof fn lemma_field(name: Seq<u8>, value: Seq<u8>)
    requires
        bytes::is_free_of(name, '=' as u8),
    ensures
        field_name(name + seq!['=' as u8] + value) == Some(name),
        field_value(name + seq!['=' as u8] + value) == Some(value),
{
    let mark = seq!['=' as u8];
    let pair = name + mark + value;
    bytes::lemma_split_first(name, mark, value);
    assert(bytes::before(pair, name.len() as int) =~= name);
    assert(bytes::after(pair, name.len() + 1int) =~= value);
}

/// Encoded values hold no separators.
proof fn lemma_encoded_value_is_plain(value: Seq<u8>)
    ensures
        bytes::is_free_of(uri::encoded_value(value), '&' as u8),
        bytes::is_free_of(uri::encoded_value(value), '#' as u8),
{
    let encoded = uri::encoded_value(value);
    uri::lemma_encoded_bytes(value, |b: u8| uri::is_unreserved(b));
    assert forall|i: int| 0 <= i < encoded.len() implies #[trigger] encoded[i] != '&' as u8
        && encoded[i] != '#' as u8 by {
        assert(uri::is_encoded_byte(encoded[i]));
    }
}

/// The fields of a listing's query.
spec fn query_pairs(prefix: Seq<u8>, max_keys: u32, token: Option<Seq<u8>>) -> Seq<Seq<u8>> {
    let mark = seq!['=' as u8];
    let fields = seq![
        "list-type".spec_bytes() + mark + "2".spec_bytes(),
        "max-keys".spec_bytes() + mark + number::decimal(max_keys as nat),
        "prefix".spec_bytes() + mark + uri::encoded_value(prefix),
    ];
    match token {
        Some(token) => seq![
            "continuation-token".spec_bytes() + mark + uri::encoded_value(token),
        ] + fields,
        None => fields,
    }
}

proof fn lemma_concat_is_free_of(a: Seq<u8>, c: Seq<u8>, b: u8)
    requires
        bytes::is_free_of(a, b),
        bytes::is_free_of(c, b),
    ensures
        bytes::is_free_of(a + c, b),
{
    assert forall|i: int| 0 <= i < (a + c).len() implies #[trigger] (a + c)[i] != b by {
        if i < a.len() {
            assert(a[i] != b);
        } else {
            assert(c[i - a.len()] != b);
        }
    }
}

proof fn lemma_literals()
    ensures
        "list-type=2&max-keys=".spec_bytes() == "list-type".spec_bytes() + seq!['=' as u8]
            + "2".spec_bytes() + seq!['&' as u8] + "max-keys".spec_bytes() + seq!['=' as u8],
        "&prefix=".spec_bytes() == seq!['&' as u8] + "prefix".spec_bytes() + seq!['=' as u8],
        "continuation-token=".spec_bytes() == "continuation-token".spec_bytes() + seq!['=' as u8],
        "&".spec_bytes() == seq!['&' as u8],
        bytes::is_free_of("list-type".spec_bytes(), '=' as u8),
        bytes::is_free_of("max-keys".spec_bytes(), '=' as u8),
        bytes::is_free_of("prefix".spec_bytes(), '=' as u8),
        bytes::is_free_of("continuation-token".spec_bytes(), '=' as u8),
        bytes::is_free_of("list-type".spec_bytes(), '&' as u8),
        bytes::is_free_of("2".spec_bytes(), '&' as u8),
        bytes::is_free_of("max-keys".spec_bytes(), '&' as u8),
        bytes::is_free_of("prefix".spec_bytes(), '&' as u8),
        bytes::is_free_of("continuation-token".spec_bytes(), '&' as u8),
        bytes::is_free_of("list-type=2&max-keys=".spec_bytes(), '#' as u8),
        bytes::is_free_of("&prefix=".spec_bytes(), '#' as u8),
        bytes::is_free_of("continuation-token=".spec_bytes(), '#' as u8),
        "list-type=2&max-keys=".spec_bytes()[0] == 'l' as u8,
        "list-type=2&max-keys=".spec_bytes().len() == 21,
        "continuation-token=".spec_bytes()[0] == 'c' as u8,
        "continuation-token=".spec_bytes().len() == 19,
        "list-type".spec_bytes().len() == 9,
        "max-keys".spec_bytes().len() == 8,
        "prefix".spec_bytes().len() == 6,
        "continuation-token".spec_bytes().len() == 18,
{
    reveal_strlit("list-type=2&max-keys=");
    is_ascii_chars_encode_utf8("list-type=2&max-keys="@);
    reveal_strlit("&prefix=");
    is_ascii_chars_encode_utf8("&prefix="@);
    reveal_strlit("continuation-token=");
    is_ascii_chars_encode_utf8("continuation-token="@);
    reveal_strlit("&");
    is_ascii_chars_encode_utf8("&"@);
    reveal_strlit("list-type");
    is_ascii_chars_encode_utf8("list-type"@);
    reveal_strlit("2");
    is_ascii_chars_encode_utf8("2"@);
    reveal_strlit("max-keys");
    is_ascii_chars_encode_utf8("max-keys"@);
    reveal_strlit("prefix");
    is_ascii_chars_encode_utf8("prefix"@);
    reveal_strlit("continuation-token");
    is_ascii_chars_encode_utf8("continuation-token"@);
}

proof fn lemma_query_splits(prefix: Seq<u8>, max_keys: u32, token: Option<Seq<u8>>)
    ensures
        bytes::split_on(query_text(prefix, max_keys, token), seq!['&' as u8]) == query_pairs(
            prefix,
            max_keys,
            token,
        ),
{
    let amp = seq!['&' as u8];
    let mark = seq!['=' as u8];
    let digits = number::decimal(max_keys as nat);
    let encoded = uri::encoded_value(prefix);
    lemma_literals();
    lemma_decimal_digits(max_keys as nat);
    lemma_encoded_value_is_plain(prefix);
    assert(bytes::is_free_of(digits, '&' as u8)) by {
        assert forall|i: int| 0 <= i < digits.len() implies #[trigger] digits[i] != '&' as u8 by {
            assert(bytes::is_digit(digits[i]));
        }
    }
    let kind = "list-type".spec_bytes() + mark + "2".spec_bytes();
    let count = "max-keys".spec_bytes() + mark + digits;
    let start = "prefix".spec_bytes() + mark + encoded;
    lemma_concat_is_free_of("list-type".spec_bytes(), mark, '&' as u8);
    lemma_concat_is_free_of("list-type".spec_bytes() + mark, "2".spec_bytes(), '&' as u8);
    lemma_concat_is_free_of("max-keys".spec_bytes(), mark, '&' as u8);
    lemma_concat_is_free_of("max-keys".spec_bytes() + mark, digits, '&' as u8);
    lemma_concat_is_free_of("prefix".spec_bytes(), mark, '&' as u8);
    lemma_concat_is_free_of("prefix".spec_bytes() + mark, encoded, '&' as u8);
    bytes::lemma_split_none(start, amp);
    bytes::lemma_split_first(count, amp, start);
    bytes::lemma_split_first(kind, amp, count + amp + start);
    let fields = kind + amp + (count + amp + start);
    assert(query_text(prefix, max_keys, None) =~= fields);
    assert(bytes::split_on(fields, amp) =~= query_pairs(prefix, max_keys, None));
    if let Some(value) = token {
        let continued = "continuation-token".spec_bytes() + mark + uri::encoded_value(value);
        lemma_encoded_value_is_plain(value);
        lemma_concat_is_free_of("continuation-token".spec_bytes(), mark, '&' as u8);
        lemma_concat_is_free_of(
            "continuation-token".spec_bytes() + mark,
            uri::encoded_value(value),
            '&' as u8,
        );
        bytes::lemma_split_first(continued, amp, fields);
        assert(query_text(prefix, max_keys, token) =~= continued + amp + fields);
    }
}

/// The order of the names.
proof fn lemma_names_are_sorted()
    ensures
        bytes::precedes("continuation-token".spec_bytes(), "list-type".spec_bytes()),
        bytes::precedes("continuation-token".spec_bytes(), "max-keys".spec_bytes()),
        bytes::precedes("continuation-token".spec_bytes(), "prefix".spec_bytes()),
        bytes::precedes("list-type".spec_bytes(), "max-keys".spec_bytes()),
        bytes::precedes("list-type".spec_bytes(), "prefix".spec_bytes()),
        bytes::precedes("max-keys".spec_bytes(), "prefix".spec_bytes()),
{
    reveal_strlit("continuation-token");
    is_ascii_chars_encode_utf8("continuation-token"@);
    reveal_strlit("list-type");
    is_ascii_chars_encode_utf8("list-type"@);
    reveal_strlit("max-keys");
    is_ascii_chars_encode_utf8("max-keys"@);
    reveal_strlit("prefix");
    is_ascii_chars_encode_utf8("prefix"@);
    let a = "continuation-token".spec_bytes();
    let b = "list-type".spec_bytes();
    let c = "max-keys".spec_bytes();
    let d = "prefix".spec_bytes();
    assert(bytes::before(a, 0) =~= bytes::before(b, 0));
    assert(bytes::before(b, 0) =~= bytes::before(c, 0));
    assert(bytes::before(c, 0) =~= bytes::before(d, 0));
}

/// The fields of a query that is built come in the byte order of their names,
/// and no name comes twice.
pub proof fn law_query_fields_are_sorted(
    prefix: Seq<u8>,
    max_keys: u32,
    token: Option<Seq<u8>>,
    i: int,
    j: int,
)
    requires
        0 <= i < j < bytes::split_on(query_text(prefix, max_keys, token), seq!['&' as u8]).len(),
    ensures
        ({
            let pairs = bytes::split_on(query_text(prefix, max_keys, token), seq!['&' as u8]);
            field_name(pairs[i]) matches Some(a) && field_name(pairs[j]) matches Some(b)
                && bytes::precedes(a, b)
        }),
{
    lemma_query_splits(prefix, max_keys, token);
    lemma_literals();
    lemma_names_are_sorted();
    lemma_field("list-type".spec_bytes(), "2".spec_bytes());
    lemma_field("max-keys".spec_bytes(), number::decimal(max_keys as nat));
    lemma_field("prefix".spec_bytes(), uri::encoded_value(prefix));
    if let Some(value) = token {
        lemma_field("continuation-token".spec_bytes(), uri::encoded_value(value));
    }
}

/// A query that is built asks, read as a presigned one, for exactly the listing
/// that it was built for.
pub proof fn law_own_queries_match(prefix: Seq<u8>, max_keys: u32, token: Option<Seq<u8>>)
    requires
        list_query(prefix, max_keys, token) is Ok,
    ensures
        is_query_for(query_text(prefix, max_keys, token), prefix, max_keys, token),
{
    let query = query_text(prefix, max_keys, token);
    let pairs = query_pairs(prefix, max_keys, token);
    let digits = number::decimal(max_keys as nat);
    let first = "list-type".spec_bytes();
    let second = "max-keys".spec_bytes();
    let third = "prefix".spec_bytes();
    let fourth = "continuation-token".spec_bytes();
    lemma_query_splits(prefix, max_keys, token);
    lemma_literals();
    lemma_field(first, "2".spec_bytes());
    lemma_field(second, digits);
    lemma_field(third, uri::encoded_value(prefix));
    law_list_queries_are_canonical(prefix, max_keys, token);
    lemma_decimal_digits(max_keys as nat);
    lemma_encoded_value_is_plain(prefix);
    assert(bytes::is_free_of(digits, '#' as u8)) by {
        assert forall|i: int| 0 <= i < digits.len() implies #[trigger] digits[i] != '#' as u8 by {
            assert(bytes::is_digit(digits[i]));
        }
    }
    let head = "list-type=2&max-keys=".spec_bytes();
    let middle = "&prefix=".spec_bytes();
    lemma_concat_is_free_of(head, digits, '#' as u8);
    lemma_concat_is_free_of(head + digits, middle, '#' as u8);
    lemma_concat_is_free_of(head + digits + middle, uri::encoded_value(prefix), '#' as u8);
    match token {
        Some(value) => {
            let name = "continuation-token=".spec_bytes();
            lemma_field(fourth, uri::encoded_value(value));
            lemma_encoded_value_is_plain(value);
            lemma_concat_is_free_of(name, uri::encoded_value(value), '#' as u8);
            lemma_concat_is_free_of(name + uri::encoded_value(value), "&".spec_bytes(), '#' as u8);
            lemma_concat_is_free_of(
                name + uri::encoded_value(value) + "&".spec_bytes(),
                head + digits + middle + uri::encoded_value(prefix),
                '#' as u8,
            );
            assert(query[0] == 'c' as u8);
            assert(field_name(pairs[0]) == Some(fourth));
            assert(field_name(pairs[1]) == Some(first));
            assert(field_name(pairs[2]) == Some(second));
            assert(field_name(pairs[3]) == Some(third));
        },
        None => {
            assert(query[0] == 'l' as u8);
            assert(field_name(pairs[0]) == Some(first));
            assert(field_name(pairs[1]) == Some(second));
            assert(field_name(pairs[2]) == Some(third));
        },
    }
    assert forall|i: int| 0 <= i < query.len() implies is_query_byte(#[trigger] query[i]) by {
        assert(bytes::is_graphic(query[i]));
    }
}

/// The name of a query field and the value that is read back from it.
pub open spec fn decoded_field(pair: Seq<u8>) -> Option<(Seq<u8>, Seq<u8>)> {
    match bytes::first_index(pair, seq!['=' as u8]) {
        Some(i) => Some((bytes::before(pair, i), uri::percent_decoded(bytes::after(pair, i + 1)))),
        None => None,
    }
}

/// The fields of a query with the values that are read back from them.
pub open spec fn decoded_fields(query: Seq<u8>) -> Seq<Option<(Seq<u8>, Seq<u8>)>> {
    let pairs = bytes::split_on(query, seq!['&' as u8]);
    Seq::new(pairs.len(), |i: int| decoded_field(pairs[i]))
}

/// A query that is built is short enough and canonical. Its fields are the kind
/// of the listing, the number of keys and the prefix, led by the continuation
/// token exactly where there is one, and their values read back as these.
pub proof fn law_built_queries_are_exact(prefix: Seq<u8>, max_keys: u32, token: Option<Seq<u8>>)
    requires
        list_query(prefix, max_keys, token) is Ok,
    ensures
        ({
            let query = list_query(prefix, max_keys, token)->Ok_0;
            let fields = seq![
                Some(("list-type".spec_bytes(), "2".spec_bytes())),
                Some(("max-keys".spec_bytes(), number::decimal(max_keys as nat))),
                Some(("prefix".spec_bytes(), prefix)),
            ];
            &&& query.len() <= MAX_QUERY_BYTES
            &&& uri::is_canonical(query)
            &&& decoded_fields(query) == match token {
                Some(token) => seq![Some(("continuation-token".spec_bytes(), token))] + fields,
                None => fields,
            }
        }),
{
    let query = query_text(prefix, max_keys, token);
    let digits = number::decimal(max_keys as nat);
    let keep = |b: u8| uri::is_unreserved(b);
    law_list_queries_are_canonical(prefix, max_keys, token);
    lemma_query_splits(prefix, max_keys, token);
    lemma_literals();
    lemma_decimal_digits(max_keys as nat);
    assert forall|i: int| 0 <= i < digits.len() implies #[trigger] digits[i] != '%' as u8 by {
        assert(bytes::is_digit(digits[i]));
    }
    uri::lemma_plain_text_decodes(digits);
    reveal_strlit("2");
    is_ascii_chars_encode_utf8("2"@);
    uri::lemma_plain_text_decodes("2".spec_bytes());
    uri::law_encoding_reads_back(prefix, keep);
    lemma_field("list-type".spec_bytes(), "2".spec_bytes());
    lemma_field("max-keys".spec_bytes(), digits);
    lemma_field("prefix".spec_bytes(), uri::encoded_value(prefix));
    let fields = seq![
        Some(("list-type".spec_bytes(), "2".spec_bytes())),
        Some(("max-keys".spec_bytes(), digits)),
        Some(("prefix".spec_bytes(), prefix)),
    ];
    match token {
        Some(value) => {
            uri::law_encoding_reads_back(value, keep);
            lemma_field("continuation-token".spec_bytes(), uri::encoded_value(value));
            assert(decoded_fields(query) =~= seq![
                Some(("continuation-token".spec_bytes(), value)),
            ] + fields);
        },
        None => {
            assert(decoded_fields(query) =~= fields);
        },
    }
}

/// Where no name comes twice, a name has one value.
proof fn lemma_values_are_unique(
    pairs: Seq<Seq<u8>>,
    name: Seq<u8>,
    value: Seq<u8>,
    other: Seq<u8>,
)
    requires
        names_are_distinct(pairs),
        has_field(pairs, name, value),
        has_field(pairs, name, other),
    ensures
        value == other,
{
    let i = choose|i: int|
        0 <= i < pairs.len() && field_name(#[trigger] pairs[i]) == Some(name) && field_value(
            pairs[i],
        ) == Some(value);
    let j = choose|j: int|
        0 <= j < pairs.len() && field_name(#[trigger] pairs[j]) == Some(name) && field_value(
            pairs[j],
        ) == Some(other);
    assert(i == j);
}

/// A query asks for one listing at most.
pub proof fn law_queries_ask_for_one_listing(
    query: Seq<u8>,
    prefix: Seq<u8>,
    max_keys: u32,
    token: Option<Seq<u8>>,
    other_prefix: Seq<u8>,
    other_max_keys: u32,
    other_token: Option<Seq<u8>>,
)
    requires
        is_query_for(query, prefix, max_keys, token),
        is_query_for(query, other_prefix, other_max_keys, other_token),
    ensures
        prefix == other_prefix,
        max_keys == other_max_keys,
        token == other_token,
{
    let pairs = bytes::split_on(query, seq!['&' as u8]);
    let keep = |b: u8| uri::is_unreserved(b);
    let fourth = "continuation-token".spec_bytes();
    lemma_values_are_unique(
        pairs,
        "max-keys".spec_bytes(),
        number::decimal(max_keys as nat),
        number::decimal(other_max_keys as nat),
    );
    number::law_decimal_reads_back(max_keys as nat, u32::MAX as nat);
    number::law_decimal_reads_back(other_max_keys as nat, u32::MAX as nat);
    lemma_values_are_unique(
        pairs,
        "prefix".spec_bytes(),
        uri::encoded_value(prefix),
        uri::encoded_value(other_prefix),
    );
    uri::law_encoding_reads_back(prefix, keep);
    uri::law_encoding_reads_back(other_prefix, keep);
    match (token, other_token) {
        (Some(value), Some(other)) => {
            lemma_values_are_unique(
                pairs,
                fourth,
                uri::encoded_value(value),
                uri::encoded_value(other),
            );
            uri::law_encoding_reads_back(value, keep);
            uri::law_encoding_reads_back(other, keep);
        },
        (Some(value), None) => {
            assert(has_name(pairs, fourth));
        },
        (None, Some(other)) => {
            assert(has_name(pairs, fourth));
        },
        (None, None) => {},
    }
}

/// Whether two queries hold the same fields, in whatever order.
pub open spec fn same_fields(query: Seq<u8>, other: Seq<u8>) -> bool {
    bytes::split_on(query, seq!['&' as u8]).to_multiset() == bytes::split_on(
        other,
        seq!['&' as u8],
    ).to_multiset()
}

/// A field of one order is a field of the other.
proof fn lemma_field_is_kept(pairs: Seq<Seq<u8>>, other: Seq<Seq<u8>>, i: int) -> (j: int)
    requires
        pairs.to_multiset() == other.to_multiset(),
        0 <= i < pairs.len(),
    ensures
        0 <= j < other.len(),
        other[j] == pairs[i],
{
    broadcast use vstd::seq_lib::group_to_multiset_ensures;

    assert(pairs.contains(pairs[i]));
    assert(pairs.to_multiset().count(pairs[i]) > 0);
    assert(other.contains(pairs[i]));
    choose|j: int| 0 <= j < other.len() && other[j] == pairs[i]
}

/// In another order the names are distinct as well.
proof fn lemma_names_stay_distinct(pairs: Seq<Seq<u8>>, other: Seq<Seq<u8>>)
    requires
        pairs.to_multiset() == other.to_multiset(),
        names_are_distinct(pairs),
    ensures
        names_are_distinct(other),
{
    assert(pairs.no_duplicates());
    pairs.lemma_multiset_has_no_duplicates();
    other.lemma_multiset_has_no_duplicates_conv();
    assert forall|i: int| 0 <= i < other.len() implies (field_name(#[trigger] other[i]) matches Some(
        name,
    ) && name.len() > 0) by {
        let k = lemma_field_is_kept(other, pairs, i);
        assert(pairs[k] == other[i]);
    }
    assert forall|i: int, j: int| 0 <= i < j < other.len() implies field_name(#[trigger] other[i])
        != field_name(#[trigger] other[j]) by {
        let k = lemma_field_is_kept(other, pairs, i);
        let l = lemma_field_is_kept(other, pairs, j);
        assert(other[i] != other[j]);
        assert(k != l);
        assert(pairs[k] == other[i] && pairs[l] == other[j]);
    }
}

/// In another order the fields are the same.
proof fn lemma_fields_are_kept(
    pairs: Seq<Seq<u8>>,
    other: Seq<Seq<u8>>,
    name: Seq<u8>,
    value: Seq<u8>,
)
    requires
        pairs.to_multiset() == other.to_multiset(),
    ensures
        has_field(pairs, name, value) ==> has_field(other, name, value),
        has_name(pairs, name) ==> has_name(other, name),
{
    if has_field(pairs, name, value) {
        let i = choose|i: int|
            0 <= i < pairs.len() && field_name(#[trigger] pairs[i]) == Some(name) && field_value(
                pairs[i],
            ) == Some(value);
        let j = lemma_field_is_kept(pairs, other, i);
        assert(field_name(other[j]) == Some(name));
    }
    if has_name(pairs, name) {
        let i = choose|i: int|
            0 <= i < pairs.len() && field_name(#[trigger] pairs[i]) == Some(name);
        let j = lemma_field_is_kept(pairs, other, i);
        assert(field_name(other[j]) == Some(name));
    }
}

/// The order of the fields does not matter to what a query asks for, unless it
/// lets the query begin with a question mark.
pub proof fn law_field_order_does_not_matter(
    query: Seq<u8>,
    other: Seq<u8>,
    prefix: Seq<u8>,
    max_keys: u32,
    token: Option<Seq<u8>>,
)
    requires
        same_fields(query, other),
        is_query_for(query, prefix, max_keys, token),
        other[0] != '?' as u8,
    ensures
        is_query_for(other, prefix, max_keys, token),
{
    let amp = seq!['&' as u8];
    let pairs = bytes::split_on(query, amp);
    let reordered = bytes::split_on(other, amp);
    let fourth = "continuation-token".spec_bytes();
    bytes::lemma_reordered(query, other, amp, |b: u8| is_query_byte(b));
    lemma_names_stay_distinct(pairs, reordered);
    lemma_fields_are_kept(pairs, reordered, "list-type".spec_bytes(), "2".spec_bytes());
    lemma_fields_are_kept(
        pairs,
        reordered,
        "max-keys".spec_bytes(),
        number::decimal(max_keys as nat),
    );
    lemma_fields_are_kept(pairs, reordered, "prefix".spec_bytes(), uri::encoded_value(prefix));
    match token {
        Some(value) => {
            lemma_fields_are_kept(pairs, reordered, fourth, uri::encoded_value(value));
        },
        None => {
            lemma_fields_are_kept(reordered, pairs, fourth, Seq::empty());
        },
    }
}

/// No field of a query that is built begins with a question mark.
proof fn lemma_fields_begin_with_names(
    prefix: Seq<u8>,
    max_keys: u32,
    token: Option<Seq<u8>>,
    i: int,
)
    requires
        0 <= i < query_pairs(prefix, max_keys, token).len(),
    ensures
        query_pairs(prefix, max_keys, token)[i].len() > 0,
        query_pairs(prefix, max_keys, token)[i][0] != '?' as u8,
{
    reveal_strlit("continuation-token");
    is_ascii_chars_encode_utf8("continuation-token"@);
    reveal_strlit("list-type");
    is_ascii_chars_encode_utf8("list-type"@);
    reveal_strlit("max-keys");
    is_ascii_chars_encode_utf8("max-keys"@);
    reveal_strlit("prefix");
    is_ascii_chars_encode_utf8("prefix"@);
}

/// A query that is built is good, its fields in whatever order, for exactly the
/// listing that it was built for.
pub proof fn law_built_queries_match_their_own_listing_only(
    prefix: Seq<u8>,
    max_keys: u32,
    token: Option<Seq<u8>>,
    query: Seq<u8>,
    other_prefix: Seq<u8>,
    other_max_keys: u32,
    other_token: Option<Seq<u8>>,
)
    requires
        list_query(prefix, max_keys, token) is Ok,
        same_fields(list_query(prefix, max_keys, token)->Ok_0, query),
    ensures
        is_query_for(query, other_prefix, other_max_keys, other_token) <==> (other_prefix == prefix
            && other_max_keys == max_keys && other_token == token),
{
    let amp = seq!['&' as u8];
    let built = query_text(prefix, max_keys, token);
    law_own_queries_match(prefix, max_keys, token);
    lemma_query_splits(prefix, max_keys, token);
    bytes::lemma_split_begins(query, amp);
    let first = lemma_field_is_kept(
        bytes::split_on(query, amp),
        bytes::split_on(built, amp),
        0,
    );
    lemma_fields_begin_with_names(prefix, max_keys, token, first);
    assert(query[0] == bytes::split_on(query, amp)[0][0]);
    law_field_order_does_not_matter(built, query, prefix, max_keys, token);
    if is_query_for(query, other_prefix, other_max_keys, other_token) {
        law_queries_ask_for_one_listing(
            query,
            prefix,
            max_keys,
            token,
            other_prefix,
            other_max_keys,
            other_token,
        );
    }
}

/// Where a listing goes on, the token that came with its page is valid in the
/// request for the next page of the same listing.
pub proof fn law_next_tokens_are_usable(
    body: Seq<u8>,
    bucket: Seq<u8>,
    prefix: Seq<u8>,
    max_keys: u32,
    token: Option<Seq<u8>>,
)
    requires
        list_inputs(prefix, max_keys, token) is Ok,
        list::page_of(body, bucket, prefix, max_keys, token) matches Ok(page) && page.is_truncated,
    ensures
        list_inputs(
            prefix,
            max_keys,
            list::page_of(body, bucket, prefix, max_keys, token)->Ok_0.next_continuation_token,
        ) is Ok,
        list::page_of(body, bucket, prefix, max_keys, token)->Ok_0.next_continuation_token is Some,
{
    list::law_pages_answer_the_request(body, bucket, prefix, max_keys, token);
}

/// Every key that a page lists can be requested from the same bucket.
pub proof fn law_listed_keys_can_be_requested(
    body: Seq<u8>,
    bucket: Seq<u8>,
    prefix: Seq<u8>,
    max_keys: u32,
    token: Option<Seq<u8>>,
    i: int,
)
    requires
        uri::is_bucket(bucket),
        list::page_of(body, bucket, prefix, max_keys, token) matches Ok(page) && 0 <= i
            < page.objects.len(),
    ensures
        uri::head_uri(
            bucket,
            list::page_of(body, bucket, prefix, max_keys, token)->Ok_0.objects[i].key,
        ) is Ok,
{
    list::law_pages_answer_the_request(body, bucket, prefix, max_keys, token);
    let page = list::page_of(body, bucket, prefix, max_keys, token)->Ok_0;
    assert(list::is_bounded_object(page.objects[i]));
}

/// Exactly these listings have a query: a prefix of one to 1024 bytes, one to a
/// thousand keys, no continuation token or one of one to 2048 bytes, and at most
/// 8192 bytes in all.
pub proof fn law_listings_in_range_have_queries(
    prefix: Seq<u8>,
    max_keys: u32,
    token: Option<Seq<u8>>,
)
    ensures
        list_query(prefix, max_keys, token) is Ok <==> {
            let fields = 29 + number::decimal(max_keys as nat).len() + uri::encoded_value(
                prefix,
            ).len();
            &&& 1 <= prefix.len() <= 1024
            &&& 1 <= max_keys <= 1000
            &&& match token {
                Some(token) => 1 <= token.len() <= 2048 && 20 + uri::encoded_value(token).len()
                    + fields <= 8192,
                None => fields <= 8192,
            }
        },
{
    lemma_literals();
}

/// A query field.
pub struct QueryField {
    pub name: Seq<u8>,
    pub value: Seq<u8>,
}

/// How a field is written.
pub open spec fn written_field(field: QueryField) -> Seq<u8> {
    field.name + seq![0x3du8] + field.value
}

/// How fields are written, with ampersands between them.
pub open spec fn written_query(fields: Seq<QueryField>) -> Seq<u8>
    decreases fields.len(),
{
    if fields.len() == 0 {
        Seq::empty()
    } else if fields.len() == 1 {
        written_field(fields[0])
    } else {
        written_query(fields.drop_last()) + seq![0x26u8] + written_field(fields.last())
    }
}

/// Whether a name holds no equals sign, and neither the name nor the value an
/// ampersand.
pub open spec fn is_field(field: QueryField) -> bool {
    &&& forall|i: int|
        0 <= i < field.name.len() ==> #[trigger] field.name[i] != 0x3d && field.name[i] != 0x26
    &&& forall|i: int| 0 <= i < field.value.len() ==> #[trigger] field.value[i] != 0x26
}

/// Whether fields may stand in a query: there is at least one, every name is
/// nonempty, and no name comes twice.
pub open spec fn are_fields(fields: Seq<QueryField>) -> bool {
    &&& fields.len() > 0
    &&& forall|i: int|
        0 <= i < fields.len() ==> is_field(#[trigger] fields[i]) && fields[i].name.len() > 0
    &&& forall|i: int, j: int|
        0 <= i < j < fields.len() ==> #[trigger] fields[i].name != #[trigger] fields[j].name
}

/// Whether a field of this name and value is among the fields.
pub open spec fn holds_field(fields: Seq<QueryField>, name: Seq<u8>, value: Seq<u8>) -> bool {
    exists|i: int| 0 <= i < fields.len() && #[trigger] fields[i].name == name && fields[i].value == value
}

/// Whether a text is visible ASCII without a number sign, of one to 8192 bytes,
/// and does not begin with a question mark.
pub open spec fn is_sendable(query: Seq<u8>) -> bool {
    &&& 1 <= query.len() <= 8192
    &&& query[0] != 0x3f
    &&& forall|i: int|
        0 <= i < query.len() ==> 0x21 <= #[trigger] query[i] <= 0x7e && query[i] != 0x23
}

/// Exactly these queries are admitted for an object.
pub proof fn law_sendable_queries_are_admitted(query: Seq<u8>)
    ensures
        is_presigned_query(query) <==> is_sendable(query),
{
    if is_presigned_query(query) {
        assert forall|i: int| 0 <= i < query.len() implies 0x21 <= #[trigger] query[i] <= 0x7e
            && query[i] != 0x23 by {
            assert(is_query_byte(query[i]));
        }
    }
    if is_sendable(query) {
        assert forall|i: int| 0 <= i < query.len() implies is_query_byte(#[trigger] query[i]) by {}
    }
}

proof fn lemma_written_field(field: QueryField)
    requires
        is_field(field),
    ensures
        field_name(written_field(field)) == Some(field.name),
        field_value(written_field(field)) == Some(field.value),
        bytes::is_free_of(written_field(field), 0x26),
{
    let mark = '=' as u8;
    assert(mark == 0x3d);
    lemma_field(field.name, field.value);
    let all = written_field(field);
    assert forall|i: int| 0 <= i < all.len() implies #[trigger] all[i] != 0x26 by {
        if i < field.name.len() {
            assert(field.name[i] != 0x26);
        } else if i > field.name.len() {
            assert(field.value[i - field.name.len() - 1] != 0x26);
        }
    }
}

/// The pieces that fields are written as.
spec fn written_pairs(fields: Seq<QueryField>) -> Seq<Seq<u8>> {
    Seq::new(fields.len(), |i: int| written_field(fields[i]))
}

proof fn lemma_written_query_splits(fields: Seq<QueryField>)
    requires
        fields.len() > 0,
        forall|i: int| 0 <= i < fields.len() ==> is_field(#[trigger] fields[i]),
    ensures
        bytes::split_on(written_query(fields), seq!['&' as u8]) == written_pairs(fields),
    decreases fields.len(),
{
    let mark = '&' as u8;
    assert(mark == 0x26);
    let last = fields[fields.len() - 1];
    lemma_written_field(last);
    if fields.len() == 1 {
        bytes::lemma_split_none(written_field(last), seq![mark]);
        assert(written_pairs(fields) =~= seq![written_field(last)]);
    } else {
        let fewer = fields.drop_last();
        assert forall|i: int| 0 <= i < fewer.len() implies is_field(#[trigger] fewer[i]) by {
            assert(is_field(fields[i]));
        }
        lemma_written_query_splits(fewer);
        bytes::lemma_split_last(written_query(fewer), mark, written_field(last));
        assert(written_pairs(fields) =~= written_pairs(fewer).push(written_field(last)));
    }
}

proof fn lemma_written_fields(fields: Seq<QueryField>, name: Seq<u8>, value: Seq<u8>)
    requires
        forall|i: int| 0 <= i < fields.len() ==> is_field(#[trigger] fields[i]),
    ensures
        has_field(written_pairs(fields), name, value) == holds_field(fields, name, value),
        has_name(written_pairs(fields), name) == (exists|i: int|
            0 <= i < fields.len() && #[trigger] fields[i].name == name),
{
    let pairs = written_pairs(fields);
    assert forall|i: int| 0 <= i < fields.len() implies field_name(#[trigger] pairs[i]) == Some(
        fields[i].name,
    ) && field_value(pairs[i]) == Some(fields[i].value) by {
        lemma_written_field(fields[i]);
    }
    if has_field(pairs, name, value) {
        let i = choose|i: int|
            0 <= i < pairs.len() && field_name(#[trigger] pairs[i]) == Some(name) && field_value(
                pairs[i],
            ) == Some(value);
        assert(fields[i].name == name);
    }
    if holds_field(fields, name, value) {
        let i = choose|i: int|
            0 <= i < fields.len() && #[trigger] fields[i].name == name && fields[i].value == value;
        assert(field_name(pairs[i]) == Some(name));
    }
    if has_name(pairs, name) {
        let i = choose|i: int| 0 <= i < pairs.len() && field_name(#[trigger] pairs[i]) == Some(name);
        assert(fields[i].name == name);
    }
    if exists|i: int| 0 <= i < fields.len() && #[trigger] fields[i].name == name {
        let i = choose|i: int| 0 <= i < fields.len() && #[trigger] fields[i].name == name;
        assert(field_name(pairs[i]) == Some(name));
    }
}

proof fn lemma_written_names(fields: Seq<QueryField>)
    requires
        fields.len() > 0,
        forall|i: int| 0 <= i < fields.len() ==> is_field(#[trigger] fields[i]),
    ensures
        names_are_distinct(written_pairs(fields)) == are_fields(fields),
{
    let pairs = written_pairs(fields);
    assert forall|i: int| 0 <= i < fields.len() implies field_name(#[trigger] pairs[i]) == Some(
        fields[i].name,
    ) by {
        lemma_written_field(fields[i]);
    }
    if names_are_distinct(pairs) {
        assert forall|i: int| 0 <= i < fields.len() implies is_field(#[trigger] fields[i])
            && fields[i].name.len() > 0 by {
            assert(field_name(pairs[i]) == Some(fields[i].name));
        }
        assert forall|i: int, j: int| 0 <= i < j < fields.len() implies #[trigger] fields[i].name
            != #[trigger] fields[j].name by {
            assert(field_name(pairs[i]) != field_name(pairs[j]));
        }
    }
    if are_fields(fields) {
        assert forall|i: int| 0 <= i < pairs.len() implies (field_name(
            #[trigger] pairs[i],
        ) matches Some(name) && name.len() > 0) by {
            assert(fields[i].name.len() > 0);
        }
        assert forall|i: int, j: int| 0 <= i < j < pairs.len() implies field_name(
            #[trigger] pairs[i],
        ) != field_name(#[trigger] pairs[j]) by {
            assert(fields[i].name != fields[j].name);
        }
    }
}

/// A query asks for a listing exactly where the listing is in range, the query
/// may be sent, its names are nonempty and differ, and it says so: among its fields, however many there
/// are and in whatever order, the list type is two, the number of keys and the
/// prefix are those of the listing, and the continuation token is that of the
/// listing, or missing where that has none.
pub proof fn law_queries_ask_by_their_fields(
    fields: Seq<QueryField>,
    prefix: Seq<u8>,
    max_keys: u32,
    token: Option<Seq<u8>>,
)
    requires
        fields.len() > 0,
        forall|i: int| 0 <= i < fields.len() ==> is_field(#[trigger] fields[i]),
    ensures
        is_query_for(written_query(fields), prefix, max_keys, token) <==> {
            &&& 1 <= prefix.len() <= 1024
            &&& 1 <= max_keys <= 1000
            &&& is_sendable(written_query(fields))
            &&& are_fields(fields)
            &&& holds_field(fields, "list-type".spec_bytes(), "2".spec_bytes())
            &&& holds_field(fields, "max-keys".spec_bytes(), number::decimal(max_keys as nat))
            &&& holds_field(fields, "prefix".spec_bytes(), uri::encoded_value(prefix))
            &&& match token {
                Some(value) => 1 <= value.len() <= 2048 && holds_field(
                    fields,
                    "continuation-token".spec_bytes(),
                    uri::encoded_value(value),
                ),
                None => forall|i: int|
                    0 <= i < fields.len() ==> #[trigger] fields[i].name
                        != "continuation-token".spec_bytes(),
            }
        },
{
    let query = written_query(fields);
    let fourth = "continuation-token".spec_bytes();
    law_sendable_queries_are_admitted(query);
    lemma_written_query_splits(fields);
    lemma_written_names(fields);
    lemma_written_fields(fields, "list-type".spec_bytes(), "2".spec_bytes());
    lemma_written_fields(fields, "max-keys".spec_bytes(), number::decimal(max_keys as nat));
    lemma_written_fields(fields, "prefix".spec_bytes(), uri::encoded_value(prefix));
    match token {
        Some(value) => {
            lemma_written_fields(fields, fourth, uri::encoded_value(value));
        },
        None => {
            lemma_written_fields(fields, fourth, Seq::empty());
        },
    }
}

/// A query that asks for a listing is made of fields.
pub proof fn law_queries_are_made_of_fields(
    query: Seq<u8>,
    prefix: Seq<u8>,
    max_keys: u32,
    token: Option<Seq<u8>>,
)
    requires
        is_query_for(query, prefix, max_keys, token),
    ensures
        exists|fields: Seq<QueryField>| are_fields(fields) && query == #[trigger] written_query(fields),
{
    let pairs = bytes::split_on(query, seq!['&' as u8]);
    bytes::lemma_split_count(query, seq!['&' as u8]);
    let fields = lemma_pairs_are_fields(query);
    assert(written_query(fields) == query);
    lemma_written_query_splits(fields);
    lemma_written_names(fields);
}

proof fn lemma_pairs_are_fields(query: Seq<u8>) -> (fields: Seq<QueryField>)
    requires
        forall|i: int|
            0 <= i < bytes::split_on(query, seq!['&' as u8]).len() ==> field_name(
                #[trigger] bytes::split_on(query, seq!['&' as u8])[i],
            ) is Some,
    ensures
        fields.len() > 0,
        forall|i: int| 0 <= i < fields.len() ==> is_field(#[trigger] fields[i]),
        written_query(fields) == query,
        written_pairs(fields) == bytes::split_on(query, seq!['&' as u8]),
    decreases query.len(),
{
    let mark = '&' as u8;
    assert(mark == 0x26);
    let pairs = bytes::split_on(query, seq![mark]);
    bytes::lemma_first_byte(query, mark);
    match bytes::first_index(query, seq![mark]) {
        None => {
            assert(field_name(pairs[0]) is Some);
            let field = lemma_pair_is_field(query);
            let fields = seq![field];
            assert(written_pairs(fields) =~= pairs);
            fields
        },
        Some(n) => {
            let head = bytes::before(query, n);
            let rest = bytes::after(query, n + 1);
            assert(field_name(pairs[0]) is Some);
            let field = lemma_pair_is_field(head);
            assert forall|i: int| 0 <= i < bytes::split_on(rest, seq![mark]).len() implies field_name(
                #[trigger] bytes::split_on(rest, seq![mark])[i],
            ) is Some by {
                assert(pairs[i + 1] == bytes::split_on(rest, seq![mark])[i]);
            }
            let tail = lemma_pairs_are_fields(rest);
            let fields = seq![field] + tail;
            assert forall|i: int| 0 <= i < fields.len() implies is_field(#[trigger] fields[i]) by {
                if i > 0 {
                    assert(is_field(tail[i - 1]));
                }
            }
            lemma_written_query_begins(field, tail);
            assert(query =~= head + seq![0x26u8] + rest);
            assert(written_pairs(fields) =~= seq![head] + written_pairs(tail));
            fields
        },
    }
}

proof fn lemma_written_query_begins(field: QueryField, tail: Seq<QueryField>)
    requires
        tail.len() > 0,
    ensures
        written_query(seq![field] + tail) == written_field(field) + seq![0x26u8] + written_query(
            tail,
        ),
    decreases tail.len(),
{
    let fields = seq![field] + tail;
    assert(fields.drop_last() =~= seq![field] + tail.drop_last());
    assert(fields.last() == tail.last());
    if tail.len() == 1 {
        assert(fields.drop_last() =~= seq![field]);
        assert(written_query(seq![field]) == written_field(field));
    } else {
        lemma_written_query_begins(field, tail.drop_last());
        assert(written_query(fields) =~= written_field(field) + seq![0x26u8] + written_query(tail));
    }
}

proof fn lemma_pair_is_field(pair: Seq<u8>) -> (field: QueryField)
    requires
        field_name(pair) is Some,
        bytes::is_free_of(pair, 0x26),
    ensures
        is_field(field),
        written_field(field) == pair,
{
    let mark = '=' as u8;
    assert(mark == 0x3d);
    bytes::lemma_first_byte(pair, mark);
    let i = bytes::first_index(pair, seq![mark])->0;
    let field = QueryField { name: bytes::before(pair, i), value: bytes::after(pair, i + 1) };
    assert forall|k: int| 0 <= k < field.name.len() implies #[trigger] field.name[k] != 0x3d
        && field.name[k] != 0x26 by {
        assert(pair[k] != 0x26);
    }
    assert forall|k: int| 0 <= k < field.value.len() implies #[trigger] field.value[k] != 0x26 by {
        assert(pair[k + i + 1] != 0x26);
    }
    assert(written_field(field) =~= pair);
    field
}

/// Fields of other names do not matter: a query that asks for a listing still
/// does with any further fields behind it, however many, whose names differ from
/// each other and from those that it holds, as long as the query may be sent and
/// no continuation token is added.
pub proof fn law_further_fields_do_not_matter(
    fields: Seq<QueryField>,
    extra: Seq<QueryField>,
    prefix: Seq<u8>,
    max_keys: u32,
    token: Option<Seq<u8>>,
)
    requires
        are_fields(fields + extra),
        fields.len() > 0,
        is_query_for(written_query(fields), prefix, max_keys, token),
        is_sendable(written_query(fields + extra)),
        forall|i: int|
            0 <= i < extra.len() ==> #[trigger] extra[i].name != "continuation-token".spec_bytes(),
    ensures
        is_query_for(written_query(fields + extra), prefix, max_keys, token),
{
    let all = fields + extra;
    assert forall|i: int| 0 <= i < fields.len() implies is_field(#[trigger] fields[i]) by {
        assert(is_field(all[i]));
    }
    law_queries_ask_by_their_fields(fields, prefix, max_keys, token);
    law_queries_ask_by_their_fields(all, prefix, max_keys, token);
    lemma_fields_remain(fields, extra, "list-type".spec_bytes(), "2".spec_bytes());
    lemma_fields_remain(
        fields,
        extra,
        "max-keys".spec_bytes(),
        number::decimal(max_keys as nat),
    );
    lemma_fields_remain(fields, extra, "prefix".spec_bytes(), uri::encoded_value(prefix));
    match token {
        Some(value) => {
            lemma_fields_remain(
                fields,
                extra,
                "continuation-token".spec_bytes(),
                uri::encoded_value(value),
            );
        },
        None => {
            assert forall|i: int| 0 <= i < all.len() implies #[trigger] all[i].name
                != "continuation-token".spec_bytes() by {
                if i < fields.len() {
                    assert(fields[i].name != "continuation-token".spec_bytes());
                } else {
                    assert(extra[i - fields.len()].name != "continuation-token".spec_bytes());
                }
            }
        },
    }
}

proof fn lemma_fields_remain(
    fields: Seq<QueryField>,
    extra: Seq<QueryField>,
    name: Seq<u8>,
    value: Seq<u8>,
)
    requires
        holds_field(fields, name, value),
    ensures
        holds_field(fields + extra, name, value),
{
    let i = choose|i: int|
        0 <= i < fields.len() && #[trigger] fields[i].name == name && fields[i].value == value;
    assert((fields + extra)[i].name == name);
}

} // verus!
