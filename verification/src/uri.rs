//! Buckets, keys and the canonical URIs that name them.

use crate::bytes;
use crate::error;
use crate::error::{HttpError, HttpErrorKind};
use crate::number;
use crate::text;
use vstd::prelude::*;
use vstd::string::*;
use vstd::utf8::*;

verus! {

pub const MAX_OBJECT_BYTES: usize = 16 * 1024 * 1024;

pub const MAX_KEY_BYTES: usize = 1_024;

/// A byte that stands for itself in a query value.
#[verifier::allow_in_spec]
pub fn is_unreserved(b: u8) -> bool
    returns
        bytes::is_alphanumeric(b) || b == '-' as u8 || b == '_' as u8 || b == '.' as u8 || b
            == '~' as u8,
{
    bytes::is_alphanumeric(b) || b == '-' as u8 || b == '_' as u8 || b == '.' as u8 || b
        == '~' as u8
}

/// A byte that stands for itself in a path.
#[verifier::allow_in_spec]
pub fn is_path_byte(b: u8) -> bool
    returns
        is_unreserved(b) || b == '/' as u8,
{
    is_unreserved(b) || b == '/' as u8
}

/// The upper-case hexadecimal digit of a number below sixteen.
#[verifier::allow_in_spec]
pub fn hex_digit(n: u8) -> u8
    requires
        n < 16,
    returns
        (if n < 10 {
            ('0' as u8 + n) as u8
        } else {
            ('A' as u8 + (n - 10)) as u8
        }),
{
    if n < 10 {
        '0' as u8 + n
    } else {
        'A' as u8 + (n - 10)
    }
}

/// How a byte is written as an escape.
pub open spec fn escape(b: u8) -> Seq<u8> {
    seq!['%' as u8, hex_digit((b / 16) as u8), hex_digit((b % 16) as u8)]
}

/// How a byte is written where those that `keep` admits stand for themselves.
pub open spec fn encoded_byte(b: u8, keep: spec_fn(u8) -> bool) -> Seq<u8> {
    if keep(b) {
        seq![b]
    } else {
        escape(b)
    }
}

/// How a text is written in percent encoding.
pub open spec fn percent_encoded(s: Seq<u8>, keep: spec_fn(u8) -> bool) -> Seq<u8>
    decreases s.len(),
{
    if s.len() == 0 {
        Seq::empty()
    } else {
        percent_encoded(s.drop_last(), keep) + encoded_byte(s.last(), keep)
    }
}

/// How an object key is written in a path: slashes remain separators.
pub open spec fn encoded_key(key: Seq<u8>) -> Seq<u8> {
    percent_encoded(key, |b: u8| is_path_byte(b))
}

/// How a value is written in a query.
pub open spec fn encoded_value(value: Seq<u8>) -> Seq<u8> {
    percent_encoded(value, |b: u8| is_unreserved(b))
}

fn push_escaped(output: &mut Vec<u8>, b: u8)
    ensures
        final(output)@ == old(output)@ + escape(b),
{
    output.push('%' as u8);
    output.push(hex_digit(b / 16));
    output.push(hex_digit(b % 16));
    assert(output@ =~= old(output)@ + escape(b));
}

/// Writes a text in percent encoding, where the bytes that `f` admits stand for
/// themselves.
fn push_percent_encoded(
    output: &mut Vec<u8>,
    s: &[u8],
    f: impl Fn(u8) -> bool,
    Ghost(keep): Ghost<spec_fn(u8) -> bool>,
)
    requires
        forall|b: u8| #[trigger] f.requires((b,)),
        forall|b: u8, r: bool| #[trigger] f.ensures((b,), r) ==> r == keep(b),
    ensures
        final(output)@ == old(output)@ + percent_encoded(s@, keep),
{
    let ghost start = output@;
    let mut i: usize = 0;
    assert(start + percent_encoded(bytes::before(s@, 0), keep) =~= start);
    while i < s.len()
        invariant
            i <= s@.len(),
            forall|b: u8| #[trigger] f.requires((b,)),
            forall|b: u8, r: bool| #[trigger] f.ensures((b,), r) ==> r == keep(b),
            output@ == start + percent_encoded(bytes::before(s@, i as int), keep),
        decreases s.len() - i,
    {
        let b: u8 = s[i];
        let ghost done = output@;
        if f(b) {
            output.push(b);
        } else {
            push_escaped(output, b);
        }
        proof {
            assert(bytes::before(s@, i + 1).drop_last() =~= bytes::before(s@, i as int));
            assert(output@ =~= done + encoded_byte(b, keep));
            assert(output@ =~= start + percent_encoded(bytes::before(s@, i + 1), keep));
        }
        i += 1;
    }
    assert(bytes::before(s@, i as int) =~= s@);
}

pub fn push_encoded_key(output: &mut Vec<u8>, key: &[u8])
    ensures
        final(output)@ == old(output)@ + encoded_key(key@),
{
    push_percent_encoded(output, key, is_path_byte, Ghost(|b: u8| is_path_byte(b)));
}

pub fn push_encoded_query_value(output: &mut Vec<u8>, value: &[u8])
    ensures
        final(output)@ == old(output)@ + encoded_value(value@),
{
    push_percent_encoded(output, value, is_unreserved, Ghost(|b: u8| is_unreserved(b)));
}

/// A byte that may stand in percent-encoded text: one that stands for itself,
/// or one of an escape.
pub open spec fn is_encoded_byte(b: u8) -> bool {
    is_path_byte(b) || b == '%' as u8
}

/// Percent-encoded text is visible ASCII.
pub proof fn lemma_encoded_bytes(s: Seq<u8>, keep: spec_fn(u8) -> bool)
    requires
        forall|b: u8| #[trigger] keep(b) ==> is_path_byte(b),
    ensures
        bytes::all(percent_encoded(s, keep), |b: u8| is_encoded_byte(b)),
    decreases s.len(),
{
    if s.len() > 0 {
        lemma_encoded_bytes(s.drop_last(), keep);
        let head = percent_encoded(s.drop_last(), keep);
        let tail = encoded_byte(s.last(), keep);
        assert forall|i: int| 0 <= i < (head + tail).len() implies is_encoded_byte(
            #[trigger] (head + tail)[i],
        ) by {
            if i < head.len() {
                assert(is_encoded_byte(head[i]));
            } else {
                assert((head + tail)[i] == tail[i - head.len()]);
            }
        }
    }
}

/// A byte that may stand in a bucket's name.
#[verifier::allow_in_spec]
pub fn is_bucket_byte(b: u8) -> bool
    returns
        bytes::is_lowercase(b) || bytes::is_digit(b) || b == '-' as u8 || b == '.' as u8,
{
    bytes::is_lowercase(b) || bytes::is_digit(b) || b == '-' as u8 || b == '.' as u8
}

/// Three to sixty-three lower-case letters, digits, hyphens and dots that begin
/// and end with a letter or digit, without two dots, or a dot and a hyphen, in
/// a row.
pub open spec fn is_bucket(bucket: Seq<u8>) -> bool {
    &&& 3 <= bucket.len() <= 63
    &&& bytes::all(bucket, |b: u8| is_bucket_byte(b))
    &&& bytes::is_alphanumeric(bucket[0])
    &&& bytes::is_alphanumeric(bucket.last())
    &&& !bytes::contains(bucket, "..".spec_bytes())
    &&& !bytes::contains(bucket, ".-".spec_bytes())
    &&& !bytes::contains(bucket, "-.".spec_bytes())
}

pub fn valid_bucket(bucket: &[u8]) -> (result: bool)
    ensures
        result == is_bucket(bucket@),
{
    3 <= bucket.len() && bucket.len() <= 63 && bytes::all_bytes(
        bucket,
        is_bucket_byte,
        Ghost(|b: u8| is_bucket_byte(b)),
    ) && bytes::is_alphanumeric(bucket[0]) && bytes::is_alphanumeric(bucket[bucket.len() - 1])
        && bytes::find(bucket, "..".as_bytes()).is_none() && bytes::find(
        bucket,
        ".-".as_bytes(),
    ).is_none() && bytes::find(bucket, "-.".as_bytes()).is_none()
}

/// The URI of an object, path-style.
pub open spec fn object_uri(bucket: Seq<u8>, key: Seq<u8>) -> Seq<u8> {
    seq!['/' as u8] + bucket + seq!['/' as u8] + encoded_key(key)
}

/// The URI of an object where its bucket and key are valid.
pub open spec fn head_uri(bucket: Seq<u8>, key: Seq<u8>) -> Result<Seq<u8>, HttpError> {
    if !is_bucket(bucket) || key.len() == 0 || key.len() > MAX_KEY_BYTES {
        Err(HttpError::new(HttpErrorKind::InvalidRequest, "invalid S3 bucket or key"))
    } else {
        Ok(object_uri(bucket, key))
    }
}

/// Whether an object's URI holds ASCII only.
proof fn lemma_object_uri_is_ascii(bucket: Seq<u8>, key: Seq<u8>)
    requires
        is_bucket(bucket),
    ensures
        bytes::all(object_uri(bucket, key), |b: u8| is_encoded_byte(b)),
        valid_utf8(object_uri(bucket, key)),
{
    let uri = object_uri(bucket, key);
    lemma_encoded_bytes(key, |b: u8| is_path_byte(b));
    assert forall|i: int| 0 <= i < uri.len() implies is_encoded_byte(#[trigger] uri[i]) by {
        if 1 <= i <= bucket.len() {
            assert(is_bucket_byte(bucket[i - 1]));
        } else if i >= bucket.len() + 2 {
            assert(is_encoded_byte(encoded_key(key)[i - bucket.len() - 2]));
        }
    }
    assert(bytes::is_ascii(uri)) by {
        assert forall|i: int| 0 <= i < uri.len() implies #[trigger] uri[i] < 0x80 by {
            assert(is_encoded_byte(uri[i]));
        }
    }
    text::lemma_ascii_is_utf8(uri);
}

/// The URI of an object is visible ASCII.
pub proof fn lemma_object_uri_is_visible(bucket: Seq<u8>, key: Seq<u8>)
    requires
        is_bucket(bucket),
    ensures
        bytes::all(object_uri(bucket, key), |b: u8| bytes::is_graphic(b)),
{
    let uri = object_uri(bucket, key);
    lemma_object_uri_is_ascii(bucket, key);
    assert forall|i: int| 0 <= i < uri.len() implies bytes::is_graphic(#[trigger] uri[i]) by {
        assert(is_encoded_byte(uri[i]));
    }
}

/// Builds the exact path-style canonical URI.
///
/// Slashes in the key remain path separators; every other byte that is not
/// unreserved is written as an escape with upper-case digits.
fn build_canonical_uri_unbounded(bucket: &str, key: &str) -> (result: Result<String, HttpError>)
    ensures
        error::agrees_text(result, head_uri(bucket.spec_bytes(), key.spec_bytes())),
{
    let bucket = bucket.as_bytes();
    let key = key.as_bytes();
    if !valid_bucket(bucket) || key.is_empty() || key.len() > MAX_KEY_BYTES {
        return Err(HttpError::new(HttpErrorKind::InvalidRequest, "invalid S3 bucket or key"));
    }
    let mut uri: Vec<u8> = Vec::new();
    uri.push('/' as u8);
    text::append(&mut uri, bucket);
    uri.push('/' as u8);
    push_encoded_key(&mut uri, key);
    proof {
        assert(uri@ =~= object_uri(bucket@, key@));
        lemma_object_uri_is_ascii(bucket@, key@);
    }
    Ok(text::utf8_string(uri.as_slice()))
}

/// The URI of an object that is read up to `max` bytes.
pub open spec fn get_uri(bucket: Seq<u8>, key: Seq<u8>, max: int) -> Result<Seq<u8>, HttpError> {
    if max == 0 || max > MAX_OBJECT_BYTES {
        Err(
            HttpError::new(
                HttpErrorKind::Limit,
                "requested object byte limit is outside the supported range",
            ),
        )
    } else {
        head_uri(bucket, key)
    }
}

pub fn build_canonical_uri(bucket: &str, key: &str, max_bytes: usize) -> (result: Result<
    String,
    HttpError,
>)
    ensures
        error::agrees_text(
            result,
            get_uri(bucket.spec_bytes(), key.spec_bytes(), max_bytes as int),
        ),
{
    if max_bytes == 0 || max_bytes > MAX_OBJECT_BYTES {
        return Err(
            HttpError::new(
                HttpErrorKind::Limit,
                "requested object byte limit is outside the supported range",
            ),
        );
    }
    build_canonical_uri_unbounded(bucket, key)
}

pub fn build_head_canonical_uri(bucket: &str, key: &str) -> (result: Result<String, HttpError>)
    ensures
        error::agrees_text(result, head_uri(bucket.spec_bytes(), key.spec_bytes())),
{
    build_canonical_uri_unbounded(bucket, key)
}

/// Whether a host signs requests for the key: it holds no percent sign and no
/// backslash, and none of its segments is `.` or `..`.
pub open spec fn is_signable_key(key: Seq<u8>) -> bool {
    let segments = bytes::split_on(key, seq!['/' as u8]);
    &&& bytes::all(key, |b: u8| is_signable_byte(b))
    &&& forall|i: int|
        0 <= i < segments.len() ==> #[trigger] segments[i] != ".".spec_bytes() && segments[i]
            != "..".spec_bytes()
}

#[verifier::allow_in_spec]
pub fn is_signable_byte(b: u8) -> bool
    returns
        b != '%' as u8 && b != '\\' as u8,
{
    b != '%' as u8 && b != '\\' as u8
}

pub open spec fn unsignable_key() -> HttpError {
    HttpError::new(
        HttpErrorKind::InvalidRequest,
        "object key is outside the supported SigV4 path shape",
    )
}

fn signable_key(key: &[u8]) -> (result: bool)
    ensures
        result == is_signable_key(key@),
{
    if !bytes::all_bytes(key, is_signable_byte, Ghost(|b: u8| is_signable_byte(b))) {
        return false;
    }
    let slash: [u8; 1] = ['/' as u8];
    assert(slash@ =~= seq!['/' as u8]);
    let segments: Vec<&[u8]> = bytes::split(key, &slash);
    let ghost all_segments = bytes::split_on(key@, seq!['/' as u8]);
    let mut i: usize = 0;
    while i < segments.len()
        invariant
            i <= segments@.len(),
            bytes::pieces(segments@) == all_segments,
            all_segments == bytes::split_on(key@, seq!['/' as u8]),
            forall|k: int|
                0 <= k < i ==> #[trigger] all_segments[k] != ".".spec_bytes() && all_segments[k]
                    != "..".spec_bytes(),
        decreases segments.len() - i,
    {
        let segment = segments[i];
        assert(bytes::pieces(segments@)[i as int] == segment@);
        if bytes::equal(segment, ".".as_bytes()) || bytes::equal(segment, "..".as_bytes()) {
            return false;
        }
        i += 1;
    }
    true
}

/// The URI of an object for which a host signs the request.
pub open spec fn signed_get_uri(bucket: Seq<u8>, key: Seq<u8>, max: int) -> Result<
    Seq<u8>,
    HttpError,
> {
    if !is_signable_key(key) {
        Err(unsignable_key())
    } else {
        get_uri(bucket, key, max)
    }
}

/// Builds the deliberately narrower canonical URI that signing grants accept.
///
/// Hosts refuse encoded percent signs and backslashes as well as dot segments,
/// so that such keys are refused before signing is asked for. Requests that no
/// host signs keep the broader keys of [`build_canonical_uri`].
pub fn build_sigv4_canonical_uri(bucket: &str, key: &str, max_bytes: usize) -> (result: Result<
    String,
    HttpError,
>)
    ensures
        error::agrees_text(
            result,
            signed_get_uri(bucket.spec_bytes(), key.spec_bytes(), max_bytes as int),
        ),
{
    if !signable_key(key.as_bytes()) {
        return Err(
            HttpError::new(
                HttpErrorKind::InvalidRequest,
                "object key is outside the supported SigV4 path shape",
            ),
        );
    }
    build_canonical_uri(bucket, key, max_bytes)
}

/// The URI of an object for whose metadata a host signs the request.
pub open spec fn signed_head_uri(bucket: Seq<u8>, key: Seq<u8>) -> Result<Seq<u8>, HttpError> {
    if !is_signable_key(key) {
        Err(unsignable_key())
    } else {
        head_uri(bucket, key)
    }
}

pub fn build_sigv4_head_canonical_uri(bucket: &str, key: &str) -> (result: Result<
    String,
    HttpError,
>)
    ensures
        error::agrees_text(result, signed_head_uri(bucket.spec_bytes(), key.spec_bytes())),
{
    if !signable_key(key.as_bytes()) {
        return Err(
            HttpError::new(
                HttpErrorKind::InvalidRequest,
                "object key is outside the supported SigV4 path shape",
            ),
        );
    }
    build_head_canonical_uri(bucket, key)
}

/// The URI of a bucket, path-style.
pub open spec fn list_uri(bucket: Seq<u8>) -> Result<Seq<u8>, HttpError> {
    if !is_bucket(bucket) {
        Err(
            HttpError::new(
                HttpErrorKind::InvalidRequest,
                "invalid S3 bucket for object listing",
            ),
        )
    } else {
        Ok(seq!['/' as u8] + bucket + seq!['/' as u8])
    }
}

/// Builds the exact path-style bucket URI that listings use.
pub fn build_list_canonical_uri(bucket: &str) -> (result: Result<String, HttpError>)
    ensures
        error::agrees_text(result, list_uri(bucket.spec_bytes())),
{
    let bucket = bucket.as_bytes();
    if !valid_bucket(bucket) {
        return Err(
            HttpError::new(
                HttpErrorKind::InvalidRequest,
                "invalid S3 bucket for object listing",
            ),
        );
    }
    let mut uri: Vec<u8> = Vec::new();
    uri.push('/' as u8);
    text::append(&mut uri, bucket);
    uri.push('/' as u8);
    proof {
        assert(uri@ =~= seq!['/' as u8] + bucket@ + seq!['/' as u8]);
        assert(uri@ =~= object_uri(bucket@, Seq::empty()));
        lemma_object_uri_is_ascii(bucket@, Seq::empty());
    }
    Ok(text::utf8_string(uri.as_slice()))
}

/// The encoding of two texts in a row.
pub proof fn lemma_encoded_concat(a: Seq<u8>, b: Seq<u8>, keep: spec_fn(u8) -> bool)
    ensures
        percent_encoded(a + b, keep) == percent_encoded(a, keep) + percent_encoded(b, keep),
    decreases b.len(),
{
    if b.len() == 0 {
        assert(a + b =~= a);
        assert(percent_encoded(a, keep) + percent_encoded(b, keep) =~= percent_encoded(a, keep));
    } else {
        lemma_encoded_concat(a, b.drop_last(), keep);
        assert((a + b).drop_last() =~= a + b.drop_last());
        assert(percent_encoded(a + b, keep) =~= percent_encoded(a, keep) + percent_encoded(b, keep));
    }
}

/// The encoding of a text begins with that of its first byte.
proof fn lemma_encoded_first(s: Seq<u8>, keep: spec_fn(u8) -> bool)
    requires
        s.len() > 0,
    ensures
        percent_encoded(s, keep) == encoded_byte(s[0], keep) + percent_encoded(
            s.drop_first(),
            keep,
        ),
{
    let first = seq![s[0]];
    lemma_encoded_concat(first, s.drop_first(), keep);
    assert(first + s.drop_first() =~= s);
    assert(percent_encoded(first.drop_last(), keep) =~= Seq::<u8>::empty());
    assert(percent_encoded(first, keep) =~= encoded_byte(s[0], keep));
}

/// The number that an upper-case hexadecimal digit stands for.
pub open spec fn hex_value(b: u8) -> int {
    if bytes::is_digit(b) {
        b - '0' as u8
    } else {
        b - 'A' as u8 + 10
    }
}

/// The text that is read back from percent encoding.
pub open spec fn percent_decoded(s: Seq<u8>) -> Seq<u8>
    decreases s.len(),
{
    if s.len() == 0 {
        Seq::empty()
    } else if s[0] == '%' as u8 && s.len() >= 3 {
        seq![(hex_value(s[1]) * 16 + hex_value(s[2])) as u8] + percent_decoded(bytes::after(s, 3))
    } else {
        seq![s[0]] + percent_decoded(bytes::after(s, 1))
    }
}

/// Percent encoding loses nothing: every text is read back from its encoding,
/// wherever a percent sign does not stand for itself. Two different keys, and
/// two different values, are therefore never written alike.
pub proof fn law_encoding_reads_back(s: Seq<u8>, keep: spec_fn(u8) -> bool)
    requires
        !keep('%' as u8),
    ensures
        percent_decoded(percent_encoded(s, keep)) == s,
    decreases s.len(),
{
    if s.len() > 0 {
        let rest = percent_encoded(s.drop_first(), keep);
        let all = percent_encoded(s, keep);
        lemma_encoded_first(s, keep);
        law_encoding_reads_back(s.drop_first(), keep);
        if keep(s[0]) {
            assert(bytes::after(all, 1) =~= rest);
            assert(all[0] == s[0]);
        } else {
            assert(bytes::after(all, 3) =~= rest);
            assert(all[1] == hex_digit((s[0] / 16) as u8));
            assert(all[2] == hex_digit((s[0] % 16) as u8));
            assert(hex_value(all[1]) == s[0] / 16);
            assert(hex_value(all[2]) == s[0] % 16);
        }
        assert(seq![s[0]] + s.drop_first() =~= s);
    } else {
        assert(s =~= Seq::<u8>::empty());
    }
}

/// An upper-case hexadecimal digit.
pub open spec fn is_escape_digit(b: u8) -> bool {
    bytes::is_digit(b) || ('A' as u8 <= b && b <= 'F' as u8)
}

/// Whether a text is canonical: visible ASCII in which every percent sign
/// begins an escape with two upper-case digits.
pub open spec fn is_canonical(s: Seq<u8>) -> bool {
    &&& bytes::all(s, |b: u8| bytes::is_graphic(b))
    &&& forall|i: int|
        0 <= i < s.len() && #[trigger] s[i] == '%' as u8 ==> i + 2 < s.len() && is_escape_digit(
            s[i + 1],
        ) && is_escape_digit(s[i + 2])
}

/// Two canonical texts in a row are canonical.
pub proof fn lemma_canonical_concat(a: Seq<u8>, b: Seq<u8>)
    requires
        is_canonical(a),
        is_canonical(b),
    ensures
        is_canonical(a + b),
{
    let s = a + b;
    assert forall|i: int| 0 <= i < s.len() implies bytes::is_graphic(#[trigger] s[i]) by {
        if i < a.len() {
            assert(bytes::is_graphic(a[i]));
        } else {
            assert(bytes::is_graphic(b[i - a.len()]));
        }
    }
    assert forall|i: int| 0 <= i < s.len() && #[trigger] s[i] == '%' as u8 implies i + 2 < s.len()
        && is_escape_digit(s[i + 1]) && is_escape_digit(s[i + 2]) by {
        if i < a.len() {
            assert(a[i] == '%' as u8);
        } else {
            assert(b[i - a.len()] == '%' as u8);
        }
    }
}

/// Percent-encoded text is canonical.
pub proof fn law_encoding_is_canonical(s: Seq<u8>, keep: spec_fn(u8) -> bool)
    requires
        forall|b: u8| #[trigger] keep(b) ==> is_path_byte(b),
    ensures
        is_canonical(percent_encoded(s, keep)),
    decreases s.len(),
{
    if s.len() > 0 {
        law_encoding_is_canonical(s.drop_last(), keep);
        lemma_canonical_concat(
            percent_encoded(s.drop_last(), keep),
            encoded_byte(s.last(), keep),
        );
    }
}

/// The URIs that hosts sign for are among those that are requested plainly,
/// and are the same there.
pub proof fn law_signed_uris_are_narrower(bucket: Seq<u8>, key: Seq<u8>, max: int)
    ensures
        signed_get_uri(bucket, key, max) is Ok ==> get_uri(bucket, key, max) == signed_get_uri(
            bucket,
            key,
            max,
        ),
        signed_head_uri(bucket, key) is Ok ==> head_uri(bucket, key) == signed_head_uri(bucket, key),
{
}

/// Escapes of a byte come from that byte alone, where it does not stand for
/// itself.
proof fn lemma_escape_comes_from_byte(s: Seq<u8>, keep: spec_fn(u8) -> bool, b: u8, i: int)
    requires
        !keep('%' as u8),
        bytes::occurs_at(percent_encoded(s, keep), escape(b), i),
    ensures
        !keep(b),
        exists|j: int| 0 <= j < s.len() && #[trigger] s[j] == b,
    decreases s.len(),
{
    let escape = escape(b);
    let all = percent_encoded(s, keep);
    assert(all.subrange(i, i + 3) == escape);
    assert(all[i] == escape[0] && all[i + 1] == escape[1] && all[i + 2] == escape[2]) by {
        assert(all.subrange(i, i + 3)[0] == escape[0]);
        assert(all.subrange(i, i + 3)[1] == escape[1]);
        assert(all.subrange(i, i + 3)[2] == escape[2]);
    }
    if s.len() > 0 {
        let head = encoded_byte(s[0], keep);
        let rest = percent_encoded(s.drop_first(), keep);
        lemma_encoded_first(s, keep);
        if i < head.len() {
            assert(all[i] == head[i]);
            assert(!keep(s[0]));
            assert(i == 0);
            assert(hex_digit((s[0] / 16) as u8) == hex_digit((b / 16) as u8));
            assert(hex_digit((s[0] % 16) as u8) == hex_digit((b % 16) as u8));
            assert(s[0] == b);
        } else {
            assert(rest.subrange(i - head.len(), i - head.len() + 3) =~= escape) by {
                assert(rest[i - head.len()] == all[i]);
                assert(rest[i - head.len() + 1] == all[i + 1]);
                assert(rest[i - head.len() + 2] == all[i + 2]);
            }
            lemma_escape_comes_from_byte(s.drop_first(), keep, b, i - head.len());
            let j = choose|j: int| 0 <= j < s.drop_first().len() && #[trigger] s.drop_first()[j] == b;
            assert(s[j + 1] == b);
        }
    }
}

/// What a host signs for holds no escaped percent sign and no escaped
/// backslash.
pub proof fn law_signed_keys_hold_no_escaped_separators(key: Seq<u8>)
    requires
        is_signable_key(key),
    ensures
        !bytes::contains(encoded_key(key), "%25".spec_bytes()),
        !bytes::contains(encoded_key(key), "%5C".spec_bytes()),
{
    reveal_strlit("%25");
    is_ascii_chars_encode_utf8("%25"@);
    reveal_strlit("%5C");
    is_ascii_chars_encode_utf8("%5C"@);
    let keep = |b: u8| is_path_byte(b);
    let percent = '%' as u8;
    let backslash = '\\' as u8;
    assert("%25".spec_bytes() =~= escape(percent));
    assert("%5C".spec_bytes() =~= escape(backslash));
    if bytes::contains(encoded_key(key), "%25".spec_bytes()) {
        let i = choose|i: int| bytes::occurs_at(encoded_key(key), "%25".spec_bytes(), i);
        lemma_escape_comes_from_byte(key, keep, percent, i);
        let j = choose|j: int| 0 <= j < key.len() && #[trigger] key[j] == percent;
        assert(is_signable_byte(key[j]));
    }
    if bytes::contains(encoded_key(key), "%5C".spec_bytes()) {
        let i = choose|i: int| bytes::occurs_at(encoded_key(key), "%5C".spec_bytes(), i);
        lemma_escape_comes_from_byte(key, keep, backslash, i);
        let j = choose|j: int| 0 <= j < key.len() && #[trigger] key[j] == backslash;
        assert(is_signable_byte(key[j]));
    }
}

/// The encodings of a number of segments.
pub open spec fn encoded_keys(segments: Seq<Seq<u8>>) -> Seq<Seq<u8>> {
    Seq::new(segments.len(), |i: int| encoded_key(segments[i]))
}

/// What holds no slash is written without one.
proof fn lemma_encoded_is_free_of_slashes(s: Seq<u8>)
    requires
        bytes::is_free_of(s, '/' as u8),
    ensures
        bytes::is_free_of(encoded_key(s), '/' as u8),
    decreases s.len(),
{
    if s.len() > 0 {
        let keep = |b: u8| is_path_byte(b);
        let head = encoded_key(s.drop_last());
        let tail = encoded_byte(s.last(), keep);
        lemma_encoded_is_free_of_slashes(s.drop_last());
        assert(s.last() != '/' as u8);
        assert forall|i: int| 0 <= i < (head + tail).len() implies #[trigger] (head + tail)[i]
            != '/' as u8 by {
            if i < head.len() {
                assert(head[i] != '/' as u8);
            } else {
                assert((head + tail)[i] == tail[i - head.len()]);
            }
        }
    }
}

/// Slashes in a key remain separators: the segments of an encoded key are the
/// encoded segments of the key.
pub proof fn law_segments_are_encoded_one_by_one(key: Seq<u8>)
    ensures
        bytes::split_on(encoded_key(key), seq!['/' as u8]) == encoded_keys(
            bytes::split_on(key, seq!['/' as u8]),
        ),
    decreases key.len(),
{
    let slash = seq!['/' as u8];
    let keep = |b: u8| is_path_byte(b);
    bytes::lemma_first_index_is_first(key, slash);
    bytes::lemma_first_index_none(key, slash);
    match bytes::first_index(key, slash) {
        None => {
            assert(bytes::is_free_of(key, '/' as u8)) by {
                assert forall|i: int| 0 <= i < key.len() implies #[trigger] key[i] != '/' as u8 by {
                    if key[i] == '/' as u8 {
                        assert(key.subrange(i, i + 1) =~= slash);
                        assert(bytes::occurs_at(key, slash, i));
                    }
                }
            }
            lemma_encoded_is_free_of_slashes(key);
            bytes::lemma_split_none(encoded_key(key), slash);
            assert(encoded_keys(seq![key]) =~= seq![encoded_key(key)]);
        },
        Some(i) => {
            let head = bytes::before(key, i);
            let tail = bytes::after(key, i + 1);
            assert(key.subrange(i, i + 1) == slash);
            assert(key =~= head + key.subrange(i, i + 1) + tail);
            assert(bytes::is_free_of(head, '/' as u8)) by {
                assert forall|j: int| 0 <= j < head.len() implies #[trigger] head[j] != '/' as u8 by {
                    if key[j] == '/' as u8 {
                        assert(key.subrange(j, j + 1) =~= slash);
                        assert(bytes::occurs_at(key, slash, j));
                    }
                }
            }
            lemma_encoded_is_free_of_slashes(head);
            lemma_encoded_concat(head + slash, tail, keep);
            lemma_encoded_concat(head, slash, keep);
            lemma_encoded_first(slash, keep);
            assert(percent_encoded(slash.drop_first(), keep) =~= Seq::<u8>::empty());
            assert(percent_encoded(slash, keep) =~= slash);
            law_segments_are_encoded_one_by_one(tail);
            bytes::lemma_split_first(encoded_key(head), slash, encoded_key(tail));
            assert(encoded_keys(seq![head] + bytes::split_on(tail, slash)) =~= seq![
                encoded_key(head),
            ] + encoded_keys(bytes::split_on(tail, slash)));
        },
    }
}

/// Only a text without escapes is written as one.
proof fn lemma_plain_encodings(s: Seq<u8>, plain: Seq<u8>)
    requires
        encoded_key(s) == plain,
        bytes::all(plain, |b: u8| is_path_byte(b)),
    ensures
        s == plain,
    decreases s.len(),
{
    let keep = |b: u8| is_path_byte(b);
    if s.len() > 0 {
        let head = encoded_key(s.drop_last());
        let tail = encoded_byte(s.last(), keep);
        assert(plain =~= head + tail);
        assert(plain[head.len() as int] == tail[0]);
        assert(is_path_byte(plain[head.len() as int]));
        assert forall|i: int| 0 <= i < head.len() implies is_path_byte(#[trigger] head[i]) by {
            assert(head[i] == plain[i]);
            assert(is_path_byte(plain[i]));
        }
        lemma_plain_encodings(s.drop_last(), head);
        assert(s =~= s.drop_last() + seq![s.last()]);
    } else {
        assert(s =~= plain);
    }
}

/// What a host signs for holds no dot segments.
pub proof fn law_signed_keys_hold_no_dot_segments(key: Seq<u8>, i: int)
    requires
        is_signable_key(key),
        0 <= i < bytes::split_on(encoded_key(key), seq!['/' as u8]).len(),
    ensures
        bytes::split_on(encoded_key(key), seq!['/' as u8])[i] != ".".spec_bytes(),
        bytes::split_on(encoded_key(key), seq!['/' as u8])[i] != "..".spec_bytes(),
{
    reveal_strlit(".");
    is_ascii_chars_encode_utf8("."@);
    reveal_strlit("..");
    is_ascii_chars_encode_utf8(".."@);
    law_segments_are_encoded_one_by_one(key);
    let segment = bytes::split_on(key, seq!['/' as u8])[i];
    assert(bytes::split_on(encoded_key(key), seq!['/' as u8])[i] == encoded_key(segment));
    if encoded_key(segment) == ".".spec_bytes() {
        lemma_plain_encodings(segment, ".".spec_bytes());
    }
    if encoded_key(segment) == "..".spec_bytes() {
        lemma_plain_encodings(segment, "..".spec_bytes());
    }
}

/// The URI of an object is the bucket between slashes and the encoded key,
/// which is canonical, escapes no byte that stands for itself, and reads back as
/// the key.
pub proof fn law_object_uris_are_exact(bucket: Seq<u8>, key: Seq<u8>, b: u8)
    requires
        head_uri(bucket, key) is Ok,
    ensures
        head_uri(bucket, key)->Ok_0 == seq!['/' as u8] + bucket + seq!['/' as u8] + encoded_key(
            key,
        ),
        bytes::all(encoded_key(key), |b: u8| is_encoded_byte(b)),
        is_canonical(encoded_key(key)),
        is_path_byte(b) ==> !bytes::contains(encoded_key(key), escape(b)),
        percent_decoded(encoded_key(key)) == key,
{
    let keep = |b: u8| is_path_byte(b);
    lemma_encoded_bytes(key, keep);
    law_encoding_is_canonical(key, keep);
    law_encoding_reads_back(key, keep);
    if is_path_byte(b) && bytes::contains(encoded_key(key), escape(b)) {
        let i = choose|i: int| bytes::occurs_at(encoded_key(key), escape(b), i);
        lemma_escape_comes_from_byte(key, keep, b, i);
    }
}

/// Different buckets or keys never share a URI.
pub proof fn law_uris_are_distinct(
    bucket: Seq<u8>,
    key: Seq<u8>,
    other_bucket: Seq<u8>,
    other_key: Seq<u8>,
)
    requires
        is_bucket(bucket),
        is_bucket(other_bucket),
        object_uri(bucket, key) == object_uri(other_bucket, other_key),
    ensures
        bucket == other_bucket,
        key == other_key,
{
    let uri = object_uri(bucket, key);
    let slash = seq!['/' as u8];
    let keep = |b: u8| is_path_byte(b);
    let n = bucket.len() as int;
    let m = other_bucket.len() as int;
    lemma_bucket_is_free_of_slashes(bucket);
    lemma_bucket_is_free_of_slashes(other_bucket);
    assert(bytes::after(uri, 1) =~= bucket + slash + encoded_key(key));
    assert(bytes::after(uri, 1) =~= other_bucket + slash + encoded_key(other_key));
    bytes::lemma_split_first(bucket, slash, encoded_key(key));
    bytes::lemma_split_first(other_bucket, slash, encoded_key(other_key));
    assert(n == m);
    assert(bucket =~= uri.subrange(1, n + 1));
    assert(other_bucket =~= uri.subrange(1, n + 1));
    assert(encoded_key(key) =~= bytes::after(uri, n + 2));
    assert(encoded_key(other_key) =~= bytes::after(uri, n + 2));
    law_encoding_reads_back(key, keep);
    law_encoding_reads_back(other_key, keep);
}

proof fn lemma_bucket_is_free_of_slashes(bucket: Seq<u8>)
    requires
        is_bucket(bucket),
    ensures
        bytes::is_free_of(bucket, '/' as u8),
{
    assert forall|i: int| 0 <= i < bucket.len() implies #[trigger] bucket[i] != '/' as u8 by {
        assert(is_bucket_byte(bucket[i]));
    }
}

/// What holds no percent sign reads back as itself.
pub proof fn lemma_plain_text_decodes(s: Seq<u8>)
    requires
        bytes::is_free_of(s, '%' as u8),
    ensures
        percent_decoded(s) == s,
    decreases s.len(),
{
    if s.len() > 0 {
        let rest = bytes::after(s, 1);
        assert forall|i: int| 0 <= i < rest.len() implies #[trigger] rest[i] != '%' as u8 by {
            assert(s[i + 1] != '%' as u8);
        }
        lemma_plain_text_decodes(rest);
        assert(s[0] != '%' as u8);
        assert(seq![s[0]] + rest =~= s);
    } else {
        assert(percent_decoded(s) =~= s);
    }
}

/// Whether two bytes in a row keep a bucket from being a host's name: two dots,
/// or a dot and a hyphen.
pub open spec fn breaks_labels(a: u8, b: u8) -> bool {
    (a == 0x2e && b == 0x2e) || (a == 0x2e && b == 0x2d) || (a == 0x2d && b == 0x2e)
}

/// Exactly these buckets are admitted: three to sixty-three lower-case letters,
/// digits, hyphens and dots, a letter or digit at either end, and no dot beside
/// a dot or a hyphen.
pub proof fn law_buckets_are_host_names(bucket: Seq<u8>)
    ensures
        list_uri(bucket) is Ok <==> {
            &&& 3 <= bucket.len() <= 63
            &&& forall|i: int|
                0 <= i < bucket.len() ==> (0x61 <= #[trigger] bucket[i] <= 0x7a || 0x30 <= bucket[i]
                    <= 0x39 || bucket[i] == 0x2d || bucket[i] == 0x2e)
            &&& bucket[0] != 0x2d && bucket[0] != 0x2e
            &&& bucket.last() != 0x2d && bucket.last() != 0x2e
            &&& forall|i: int|
                0 <= i < bucket.len() - 1 ==> !breaks_labels(#[trigger] bucket[i], bucket[i + 1])
        },
        list_uri(bucket) is Ok ==> list_uri(bucket)->Ok_0 == seq![0x2fu8] + bucket + seq![0x2fu8],
        is_bucket(bucket) == list_uri(bucket) is Ok,
{
    lemma_label_breaks(bucket);
    if 3 <= bucket.len() <= 63 {
        if bytes::all(bucket, |b: u8| is_bucket_byte(b)) {
            assert forall|i: int| 0 <= i < bucket.len() implies (0x61 <= #[trigger] bucket[i] <= 0x7a
                || 0x30 <= bucket[i] <= 0x39 || bucket[i] == 0x2d || bucket[i] == 0x2e) by {
                assert(is_bucket_byte(bucket[i]));
            }
        }
        if forall|i: int|
            0 <= i < bucket.len() ==> (0x61 <= #[trigger] bucket[i] <= 0x7a || 0x30 <= bucket[i]
                <= 0x39 || bucket[i] == 0x2d || bucket[i] == 0x2e) {
            assert forall|i: int| 0 <= i < bucket.len() implies is_bucket_byte(
                #[trigger] bucket[i],
            ) by {}
        }
    }
}

proof fn lemma_label_breaks(bucket: Seq<u8>)
    ensures
        (bytes::contains(bucket, "..".spec_bytes()) || bytes::contains(bucket, ".-".spec_bytes())
            || bytes::contains(bucket, "-.".spec_bytes())) <==> exists|i: int|
            0 <= i < bucket.len() - 1 && breaks_labels(#[trigger] bucket[i], bucket[i + 1]),
{
    reveal_strlit("..");
    is_ascii_chars_encode_utf8(".."@);
    reveal_strlit(".-");
    is_ascii_chars_encode_utf8(".-"@);
    reveal_strlit("-.");
    is_ascii_chars_encode_utf8("-."@);
    let dots = "..".spec_bytes();
    let first = ".-".spec_bytes();
    let second = "-.".spec_bytes();
    if bytes::contains(bucket, dots) {
        let i = choose|i: int| bytes::occurs_at(bucket, dots, i);
        assert(bucket.subrange(i, i + 2)[0] == dots[0] && bucket.subrange(i, i + 2)[1] == dots[1]);
        assert(breaks_labels(bucket[i], bucket[i + 1]));
    }
    if bytes::contains(bucket, first) {
        let i = choose|i: int| bytes::occurs_at(bucket, first, i);
        assert(bucket.subrange(i, i + 2)[0] == first[0] && bucket.subrange(i, i + 2)[1] == first[1]);
        assert(breaks_labels(bucket[i], bucket[i + 1]));
    }
    if bytes::contains(bucket, second) {
        let i = choose|i: int| bytes::occurs_at(bucket, second, i);
        assert(bucket.subrange(i, i + 2)[0] == second[0] && bucket.subrange(i, i + 2)[1]
            == second[1]);
        assert(breaks_labels(bucket[i], bucket[i + 1]));
    }
    if exists|i: int|
        0 <= i < bucket.len() - 1 && breaks_labels(#[trigger] bucket[i], bucket[i + 1]) {
        let i = choose|i: int|
            0 <= i < bucket.len() - 1 && breaks_labels(#[trigger] bucket[i], bucket[i + 1]);
        let two = bucket.subrange(i, i + 2);
        if bucket[i] == 0x2e && bucket[i + 1] == 0x2e {
            assert(two =~= dots);
            assert(bytes::occurs_at(bucket, dots, i));
        } else if bucket[i] == 0x2e {
            assert(two =~= first);
            assert(bytes::occurs_at(bucket, first, i));
        } else {
            assert(two =~= second);
            assert(bytes::occurs_at(bucket, second, i));
        }
    }
}

/// Every object of an admitted bucket has a URI: its key may be any text of one
/// to 1024 bytes, and it may be read up to any limit of one byte to sixteen
/// mebibytes, which does not change the URI.
pub proof fn law_every_object_has_a_uri(bucket: Seq<u8>, key: Seq<u8>, max: int)
    requires
        0 <= max,
    ensures
        head_uri(bucket, key) is Ok <==> list_uri(bucket) is Ok && 1 <= key.len() <= 1024,
        get_uri(bucket, key, max) is Ok <==> head_uri(bucket, key) is Ok && 1 <= max <= 16_777_216,
        get_uri(bucket, key, max) is Ok ==> get_uri(bucket, key, max) == head_uri(bucket, key),
        head_uri(bucket, key) is Ok ==> head_uri(bucket, key)->Ok_0 == list_uri(bucket)->Ok_0
            + encoded_key(key),
{
    if head_uri(bucket, key) is Ok {
        assert(object_uri(bucket, key) =~= list_uri(bucket)->Ok_0 + encoded_key(key));
    }
}

/// Letters, digits, hyphens, underscores, dots and tildes.
pub open spec fn needs_no_escape(b: u8) -> bool {
    0x41 <= b <= 0x5a || 0x61 <= b <= 0x7a || 0x30 <= b <= 0x39 || b == 0x2d || b == 0x5f || b
        == 0x2e || b == 0x7e
}

/// Whether a byte is written as a percent sign and its two upper-case
/// hexadecimal digits.
pub open spec fn is_escape_of(written: Seq<u8>, b: u8) -> bool {
    &&& written.len() == 3
    &&& written[0] == 0x25
    &&& number::writes(bytes::after(written, 1), 16, b as nat)
    &&& !(0x61 <= written[1] <= 0x66) && !(0x61 <= written[2] <= 0x66)
}

proof fn lemma_escape_of(b: u8)
    ensures
        is_escape_of(escape(b), b),
{
    let digits = bytes::after(escape(b), 1);
    assert(digits =~= seq![hex_digit((b / 16) as u8), hex_digit((b % 16) as u8)]);
    assert(digits.drop_last() =~= seq![hex_digit((b / 16) as u8)]);
    assert((b as nat) / 16 == b / 16);
    assert((b as nat) % 16 == b % 16);
    assert(number::digit(digits.last()) == Some((b as nat) % 16));
    assert(number::digit(digits.drop_last().last()) == Some(((b as nat) / 16) % 16));
    assert(number::writes(digits.drop_last(), 16, (b as nat) / 16));
}

/// Keys and values are written byte by byte: letters, digits, hyphens,
/// underscores, dots and tildes as they are, in keys slashes too, and every
/// other byte as its escape.
pub proof fn law_texts_are_written_byte_by_byte(a: Seq<u8>, c: Seq<u8>, b: u8)
    ensures
        encoded_key(a + c) == encoded_key(a) + encoded_key(c),
        encoded_value(a + c) == encoded_value(a) + encoded_value(c),
        encoded_key(Seq::empty()) == Seq::<u8>::empty(),
        encoded_value(Seq::empty()) == Seq::<u8>::empty(),
        needs_no_escape(b) ==> encoded_value(seq![b]) == seq![b],
        !needs_no_escape(b) ==> is_escape_of(encoded_value(seq![b]), b),
        needs_no_escape(b) || b == 0x2f ==> encoded_key(seq![b]) == seq![b],
        !needs_no_escape(b) && b != 0x2f ==> is_escape_of(encoded_key(seq![b]), b),
{
    let path = |b: u8| is_path_byte(b);
    let plain = |b: u8| is_unreserved(b);
    lemma_encoded_concat(a, c, path);
    lemma_encoded_concat(a, c, plain);
    lemma_encoded_first(seq![b], path);
    lemma_encoded_first(seq![b], plain);
    assert(seq![b].drop_first() =~= Seq::<u8>::empty());
    assert(encoded_byte(b, path) + Seq::<u8>::empty() =~= encoded_byte(b, path));
    assert(encoded_byte(b, plain) + Seq::<u8>::empty() =~= encoded_byte(b, plain));
    lemma_escape_of(b);
}

/// Whether a key holds a segment that is one dot or two.
pub open spec fn has_dot_segment(key: Seq<u8>) -> bool {
    exists|i: int, j: int|
        {
            &&& #[trigger] bytes::is_piece(key, 0x2f, i, j)
            &&& 1 <= j - i <= 2
            &&& forall|k: int| i <= k < j ==> #[trigger] key[k] == 0x2e
        }
}

/// A host is asked to sign for every object but those whose keys hold a percent
/// sign, a backslash or a segment of one dot or two; the URI is that of the
/// plain request. Only such a key is refused as unsignable.
pub proof fn law_hosts_sign_for_every_other_key(bucket: Seq<u8>, key: Seq<u8>, max: int)
    ensures
        ({
            let signable = {
                &&& forall|i: int|
                    0 <= i < key.len() ==> #[trigger] key[i] != 0x25 && key[i] != 0x5c
                &&& !has_dot_segment(key)
            };
            let refusal = HttpError {
                kind: HttpErrorKind::InvalidRequest,
                status: None,
                message: "object key is outside the supported SigV4 path shape",
            };
            &&& signable ==> signed_get_uri(bucket, key, max) == get_uri(bucket, key, max)
            &&& signable ==> signed_head_uri(bucket, key) == head_uri(bucket, key)
            &&& !signable ==> signed_get_uri(bucket, key, max) == Err::<Seq<u8>, HttpError>(refusal)
            &&& !signable ==> signed_head_uri(bucket, key) == Err::<Seq<u8>, HttpError>(refusal)
        }),
{
    lemma_dot_segments(key);
    if forall|i: int| 0 <= i < key.len() ==> #[trigger] key[i] != 0x25 && key[i] != 0x5c {
        assert forall|i: int| 0 <= i < key.len() implies is_signable_byte(#[trigger] key[i]) by {}
    } else {
        let i = choose|i: int| 0 <= i < key.len() && !(#[trigger] key[i] != 0x25 && key[i] != 0x5c);
        assert(!is_signable_byte(key[i]));
    }
}

proof fn lemma_dot_segments(key: Seq<u8>)
    ensures
        ({
            let segments = bytes::split_on(key, seq!['/' as u8]);
            has_dot_segment(key) <==> !(forall|i: int|
                0 <= i < segments.len() ==> #[trigger] segments[i] != ".".spec_bytes()
                    && segments[i] != "..".spec_bytes())
        }),
{
    reveal_strlit(".");
    is_ascii_chars_encode_utf8("."@);
    reveal_strlit("..");
    is_ascii_chars_encode_utf8(".."@);
    let one = ".".spec_bytes();
    let two = "..".spec_bytes();
    let slash = '/' as u8;
    assert(slash == 0x2f);
    let segments = bytes::split_on(key, seq![slash]);
    bytes::law_pieces_stand_between_separators(key, 0x2f, one);
    bytes::law_pieces_stand_between_separators(key, 0x2f, two);
    if has_dot_segment(key) {
        let (i, j) = choose|i: int, j: int|
            {
                &&& #[trigger] bytes::is_piece(key, 0x2f, i, j)
                &&& 1 <= j - i <= 2
                &&& forall|k: int| i <= k < j ==> #[trigger] key[k] == 0x2e
            };
        if j - i == 1 {
            assert(key.subrange(i, j) =~= one);
        } else {
            assert(key.subrange(i, j) =~= two);
        }
    }
    if segments.contains(one) {
        let (i, j) = choose|i: int, j: int| #[trigger]
            bytes::is_piece(key, 0x2f, i, j) && key.subrange(i, j) == one;
        assert forall|k: int| i <= k < j implies #[trigger] key[k] == 0x2e by {
            assert(key.subrange(i, j)[k - i] == one[k - i]);
        }
    }
    if segments.contains(two) {
        let (i, j) = choose|i: int, j: int| #[trigger]
            bytes::is_piece(key, 0x2f, i, j) && key.subrange(i, j) == two;
        assert forall|k: int| i <= k < j implies #[trigger] key[k] == 0x2e by {
            assert(key.subrange(i, j)[k - i] == two[k - i]);
        }
    }
    if has_dot_segment(key) {
        let k = choose|k: int|
            0 <= k < segments.len() && (#[trigger] segments[k] == one || segments[k] == two);
        assert(segments[k] == one || segments[k] == two);
    } else {
        assert forall|k: int| 0 <= k < segments.len() implies #[trigger] segments[k] != one
            && segments[k] != two by {
            assert(segments.contains(segments[k]));
        }
    }
}

} // verus!
