//! Byte classes, searching and splitting.
//!
//! Texts are modelled by their UTF-8 bytes throughout the library.

use vstd::prelude::*;
use vstd::string::*;
use vstd::utf8::*;

verus! {

/// `0` to `9`.
#[verifier::allow_in_spec]
pub fn is_digit(b: u8) -> bool
    returns
        '0' as u8 <= b && b <= '9' as u8,
{
    '0' as u8 <= b && b <= '9' as u8
}

/// `a` to `z`.
#[verifier::allow_in_spec]
pub fn is_lowercase(b: u8) -> bool
    returns
        'a' as u8 <= b && b <= 'z' as u8,
{
    'a' as u8 <= b && b <= 'z' as u8
}

/// `A` to `Z`.
#[verifier::allow_in_spec]
pub fn is_uppercase(b: u8) -> bool
    returns
        'A' as u8 <= b && b <= 'Z' as u8,
{
    'A' as u8 <= b && b <= 'Z' as u8
}

/// An ASCII letter or digit.
#[verifier::allow_in_spec]
pub fn is_alphanumeric(b: u8) -> bool
    returns
        is_digit(b) || is_lowercase(b) || is_uppercase(b),
{
    is_digit(b) || is_lowercase(b) || is_uppercase(b)
}

/// A hexadecimal digit of either case.
#[verifier::allow_in_spec]
pub fn is_hex_digit(b: u8) -> bool
    returns
        is_digit(b) || ('a' as u8 <= b && b <= 'f' as u8) || ('A' as u8 <= b && b <= 'F' as u8),
{
    is_digit(b) || ('a' as u8 <= b && b <= 'f' as u8) || ('A' as u8 <= b && b <= 'F' as u8)
}

/// Space, tab, line feed, form feed or carriage return.
#[verifier::allow_in_spec]
pub fn is_whitespace(b: u8) -> bool
    returns
        b == 0x20 || b == 0x09 || b == 0x0a || b == 0x0c || b == 0x0d,
{
    b == 0x20 || b == 0x09 || b == 0x0a || b == 0x0c || b == 0x0d
}

/// A visible ASCII character.
#[verifier::allow_in_spec]
pub fn is_graphic(b: u8) -> bool
    returns
        0x21 <= b && b <= 0x7e,
{
    0x21 <= b && b <= 0x7e
}

/// The lower-case form of an ASCII letter, and every other byte itself.
#[verifier::allow_in_spec]
pub fn to_lowercase(b: u8) -> u8
    returns
        (if is_uppercase(b) {
            (b + 32) as u8
        } else {
            b
        }),
{
    if is_uppercase(b) {
        b + 32
    } else {
        b
    }
}

/// A byte below 0x80.
#[verifier::allow_in_spec]
pub fn is_ascii_byte(b: u8) -> bool
    returns
        b < 0x80,
{
    b < 0x80
}

/// Whether every byte satisfies the predicate.
pub open spec fn all(s: Seq<u8>, p: spec_fn(u8) -> bool) -> bool {
    forall|i: int| 0 <= i < s.len() ==> p(#[trigger] s[i])
}

/// Whether every byte is ASCII.
pub open spec fn is_ascii(s: Seq<u8>) -> bool {
    all(s, |b: u8| b < 0x80)
}

/// Whether `pattern` stands in `s` at index `i`.
pub open spec fn occurs_at(s: Seq<u8>, pattern: Seq<u8>, i: int) -> bool {
    0 <= i && i + pattern.len() <= s.len() && s.subrange(i, i + pattern.len()) =~= pattern
}

/// Whether `i` is the first index at which `pattern` stands in `s`.
pub open spec fn first_at(s: Seq<u8>, pattern: Seq<u8>, i: int) -> bool {
    occurs_at(s, pattern, i) && forall|j: int| 0 <= j < i ==> !occurs_at(s, pattern, j)
}

/// The first index at which `pattern` stands in `s`, where there is one.
#[verifier::opaque]
pub open spec fn first_index(s: Seq<u8>, pattern: Seq<u8>) -> Option<int> {
    if exists|i: int| first_at(s, pattern, i) {
        Some(choose|i: int| first_at(s, pattern, i))
    } else {
        None
    }
}

/// Whether `pattern` stands anywhere in `s`.
pub open spec fn contains(s: Seq<u8>, pattern: Seq<u8>) -> bool {
    exists|i: int| occurs_at(s, pattern, i)
}

/// Whether `s` begins with `pattern`.
pub open spec fn starts_with(s: Seq<u8>, pattern: Seq<u8>) -> bool {
    occurs_at(s, pattern, 0)
}

/// What follows `prefix` in `s`, where `s` begins with it.
pub open spec fn stripped(s: Seq<u8>, prefix: Seq<u8>) -> Option<Seq<u8>> {
    if starts_with(s, prefix) {
        Some(after(s, prefix.len() as int))
    } else {
        None
    }
}

/// What follows index `i`.
pub open spec fn after(s: Seq<u8>, i: int) -> Seq<u8> {
    s.subrange(i, s.len() as int)
}

/// What stands before index `i`.
pub open spec fn before(s: Seq<u8>, i: int) -> Seq<u8> {
    s.subrange(0, i)
}

/// The pieces of `s` between the successive occurrences of a nonempty
/// separator. There is always at least one piece.
pub open spec fn split_on(s: Seq<u8>, separator: Seq<u8>) -> Seq<Seq<u8>>
    decreases s.len(),
{
    match first_index(s, separator) {
        Some(i) if separator.len() > 0 => {
            proof {
                lemma_first_index_is_first(s, separator);
            }
            seq![before(s, i)] + split_on(after(s, i + separator.len()), separator)
        },
        _ => seq![s],
    }
}

/// Carriage return and line feed.
pub open spec fn crlf() -> Seq<u8> {
    seq![0x0du8, 0x0au8]
}

/// The blank line that ends an HTTP header, with the end of the line before.
pub open spec fn header_terminator() -> Seq<u8> {
    seq![0x0du8, 0x0au8, 0x0du8, 0x0au8]
}

/// `s` without its leading bytes that satisfy the predicate.
pub open spec fn trim_start(s: Seq<u8>, p: spec_fn(u8) -> bool) -> Seq<u8>
    decreases s.len(),
{
    if s.len() > 0 && p(s[0]) {
        trim_start(after(s, 1), p)
    } else {
        s
    }
}

/// `s` without its trailing bytes that satisfy the predicate.
pub open spec fn trim_end(s: Seq<u8>, p: spec_fn(u8) -> bool) -> Seq<u8>
    decreases s.len(),
{
    if s.len() > 0 && p(s.last()) {
        trim_end(s.drop_last(), p)
    } else {
        s
    }
}

/// How many bytes at the start of `s` satisfy the predicate.
pub open spec fn span(s: Seq<u8>, p: spec_fn(u8) -> bool) -> int
    decreases s.len(),
{
    if s.len() > 0 && p(s[0]) {
        1 + span(after(s, 1), p)
    } else {
        0
    }
}

/// Space or tab.
#[verifier::allow_in_spec]
pub fn is_blank(b: u8) -> bool
    returns
        b == 0x20 || b == 0x09,
{
    b == 0x20 || b == 0x09
}

/// `s` without the spaces and tabs around it.
pub open spec fn trim_blanks(s: Seq<u8>) -> Seq<u8> {
    trim_end(trim_start(s, |b: u8| is_blank(b)), |b: u8| is_blank(b))
}

/// Equality up to the case of ASCII letters.
pub open spec fn equal_ignoring_case(a: Seq<u8>, b: Seq<u8>) -> bool {
    a.len() == b.len() && forall|i: int|
        0 <= i < a.len() ==> to_lowercase(#[trigger] a[i]) == to_lowercase(b[i])
}

/// Whether `a` comes before `b` in byte order.
pub open spec fn precedes(a: Seq<u8>, b: Seq<u8>) -> bool {
    exists|i: int|
        {
            &&& 0 <= i <= a.len()
            &&& i < b.len()
            &&& #[trigger] before(a, i) == before(b, i)
            &&& i == a.len() || a[i] < b[i]
        }
}

/// A pattern that occurs has a first occurrence.
pub proof fn lemma_first_index_exists(s: Seq<u8>, pattern: Seq<u8>, i: int)
    requires
        occurs_at(s, pattern, i),
    ensures
        first_index(s, pattern) matches Some(k) && k <= i && first_at(s, pattern, k),
    decreases i,
{
    if exists|j: int| 0 <= j < i && occurs_at(s, pattern, j) {
        let j = choose|j: int| 0 <= j < i && occurs_at(s, pattern, j);
        lemma_first_index_exists(s, pattern, j);
    } else {
        reveal(first_index);
        assert(first_at(s, pattern, i));
        let k = choose|k: int| first_at(s, pattern, k);
        assert(k == i);
    }
}

/// Where there is a first index, the pattern stands there and nowhere before.
pub proof fn lemma_first_index_is_first(s: Seq<u8>, pattern: Seq<u8>)
    ensures
        first_index(s, pattern) matches Some(k) ==> first_at(s, pattern, k),
{
    reveal(first_index);
}

/// The first index is the one with no occurrence before it.
pub proof fn lemma_first_index(s: Seq<u8>, pattern: Seq<u8>, i: int)
    requires
        first_at(s, pattern, i),
    ensures
        first_index(s, pattern) == Some(i),
{
    lemma_first_index_exists(s, pattern, i);
}

/// There is no first index exactly where the pattern does not occur.
pub proof fn lemma_first_index_none(s: Seq<u8>, pattern: Seq<u8>)
    ensures
        first_index(s, pattern) is None <==> !contains(s, pattern),
{
    lemma_first_index_is_first(s, pattern);
    if contains(s, pattern) {
        let i = choose|i: int| occurs_at(s, pattern, i);
        lemma_first_index_exists(s, pattern, i);
    }
}

/// Whether two byte strings are the same.
pub fn equal(a: &[u8], b: &[u8]) -> (result: bool)
    ensures
        result == (a@ == b@),
{
    if a.len() != b.len() {
        return false;
    }
    let mut i: usize = 0;
    while i < a.len()
        invariant
            i <= a.len(),
            a@.len() == b@.len(),
            forall|j: int| 0 <= j < i ==> a@[j] == b@[j],
        decreases a.len() - i,
    {
        if a[i] != b[i] {
            return false;
        }
        i += 1;
    }
    assert(a@ =~= b@);
    true
}

/// Whether two byte strings are the same up to the case of ASCII letters.
pub fn eq_ignore_case(a: &[u8], b: &[u8]) -> (result: bool)
    ensures
        result == equal_ignoring_case(a@, b@),
{
    if a.len() != b.len() {
        return false;
    }
    let mut i: usize = 0;
    while i < a.len()
        invariant
            i <= a.len(),
            a@.len() == b@.len(),
            forall|j: int| 0 <= j < i ==> to_lowercase(#[trigger] a@[j]) == to_lowercase(b@[j]),
        decreases a.len() - i,
    {
        if to_lowercase(a[i]) != to_lowercase(b[i]) {
            return false;
        }
        i += 1;
    }
    true
}

/// Whether every byte satisfies the predicate that `f` decides.
pub(crate) fn all_bytes(
    s: &[u8],
    f: impl Fn(u8) -> bool,
    Ghost(p): Ghost<spec_fn(u8) -> bool>,
) -> (result: bool)
    requires
        forall|b: u8| #[trigger] f.requires((b,)),
        forall|b: u8, r: bool| #[trigger] f.ensures((b,), r) ==> r == p(b),
    ensures
        result == all(s@, p),
{
    let mut i: usize = 0;
    while i < s.len()
        invariant
            i <= s.len(),
            forall|b: u8| #[trigger] f.requires((b,)),
            forall|b: u8, r: bool| #[trigger] f.ensures((b,), r) ==> r == p(b),
            forall|j: int| 0 <= j < i ==> p(#[trigger] s@[j]),
        decreases s.len() - i,
    {
        if !f(s[i]) {
            return false;
        }
        i += 1;
    }
    true
}

/// Whether every byte is ASCII.
pub fn ascii(s: &[u8]) -> (result: bool)
    ensures
        result == is_ascii(s@),
{
    all_bytes(s, is_ascii_byte, Ghost(|b: u8| b < 0x80))
}

/// Whether `pattern` stands in `s` at index `at`.
pub fn occurs(s: &[u8], pattern: &[u8], at: usize) -> (result: bool)
    ensures
        result == occurs_at(s@, pattern@, at as int),
{
    if at > s.len() || pattern.len() > s.len() - at {
        return false;
    }
    equal(&s[at..at + pattern.len()], pattern)
}

/// The first index at which `pattern` stands in `s`.
pub fn find(s: &[u8], pattern: &[u8]) -> (result: Option<usize>)
    ensures
        match result {
            Some(i) => first_index(s@, pattern@) == Some(i as int) && first_at(
                s@,
                pattern@,
                i as int,
            ) && i + pattern@.len() <= s.len(),
            None => first_index(s@, pattern@) is None && !contains(s@, pattern@),
        },
{
    let mut i: usize = 0;
    while pattern.len() <= s.len() - i
        invariant
            i <= s@.len(),
            pattern@.len() == 0 ==> i == 0,
            forall|j: int| 0 <= j < i ==> !occurs_at(s@, pattern@, j),
        decreases s.len() - i,
    {
        if occurs(s, pattern, i) {
            proof {
                lemma_first_index(s@, pattern@, i as int);
            }
            return Some(i);
        }
        proof {
            assert(pattern@.len() == 0 ==> s@.subrange(0, 0) =~= pattern@);
        }
        i += 1;
    }
    proof {
        lemma_first_index_none(s@, pattern@);
    }
    None
}

/// The sequences that a vector of slices holds.
pub open spec fn pieces(v: Seq<&[u8]>) -> Seq<Seq<u8>> {
    Seq::new(v.len(), |i: int| v[i]@)
}

/// The pieces of `s` between the successive occurrences of `separator`.
pub fn split<'a>(s: &'a [u8], separator: &[u8]) -> (result: Vec<&'a [u8]>)
    requires
        separator@.len() > 0,
    ensures
        pieces(result@) == split_on(s@, separator@),
        result@.len() > 0,
{
    let mut result: Vec<&'a [u8]> = Vec::new();
    let mut rest: &'a [u8] = s;
    loop
        invariant
            separator@.len() > 0,
            pieces(result@) + split_on(rest@, separator@) == split_on(s@, separator@),
        decreases rest@.len(),
    {
        match find(rest, separator) {
            Some(i) => {
                let ghost done = pieces(result@);
                let piece: &'a [u8] = &rest[0..i];
                result.push(piece);
                assert(pieces(result@) =~= done.push(piece@));
                assert(done + (seq![piece@] + split_on(
                    after(rest@, i + separator@.len()),
                    separator@,
                )) =~= done.push(piece@) + split_on(after(rest@, i + separator@.len()), separator@));
                rest = &rest[i + separator.len()..rest.len()];
            },
            None => {
                let ghost done = pieces(result@);
                result.push(rest);
                assert(pieces(result@) =~= done.push(rest@));
                assert(done + seq![rest@] =~= done.push(rest@));
                return result;
            },
        }
    }
}

/// What holds of every byte holds of every byte of every piece.
pub proof fn lemma_split_all(s: Seq<u8>, separator: Seq<u8>, p: spec_fn(u8) -> bool)
    requires
        all(s, p),
    ensures
        forall|k: int|
            0 <= k < split_on(s, separator).len() ==> all(#[trigger] split_on(s, separator)[k], p),
    decreases s.len(),
{
    lemma_first_index_is_first(s, separator);
    match first_index(s, separator) {
        Some(i) if separator.len() > 0 => {
            let rest = after(s, i + separator.len());
            lemma_split_all(rest, separator, p);
            assert forall|k: int| 0 <= k < split_on(s, separator).len() implies all(
                #[trigger] split_on(s, separator)[k],
                p,
            ) by {
                if k > 0 {
                    assert(split_on(s, separator)[k] == split_on(rest, separator)[k - 1]);
                }
            }
        },
        _ => {},
    }
}

/// The two bytes that end a line.
pub fn crlf_bytes() -> (result: &'static [u8])
    ensures
        result@ == crlf(),
{
    proof {
        reveal_strlit("\r\n");
        is_ascii_chars_encode_utf8("\r\n"@);
        assert(encode_utf8("\r\n"@) =~= crlf());
    }
    "\r\n".as_bytes()
}

/// The four bytes that end an HTTP header.
pub fn header_terminator_bytes() -> (result: &'static [u8])
    ensures
        result@ == header_terminator(),
{
    proof {
        reveal_strlit("\r\n\r\n");
        is_ascii_chars_encode_utf8("\r\n\r\n"@);
        assert(encode_utf8("\r\n\r\n"@) =~= header_terminator());
    }
    "\r\n\r\n".as_bytes()
}

/// The index of the first byte of `s` that is not a space or tab.
fn blank_prefix(s: &[u8]) -> (result: usize)
    ensures
        result <= s@.len(),
        trim_start(s@, |b: u8| is_blank(b)) == after(s@, result as int),
{
    let mut i: usize = 0;
    assert(after(s@, 0) =~= s@);
    while i < s.len() && is_blank(s[i])
        invariant
            i <= s@.len(),
            trim_start(s@, |b: u8| is_blank(b)) == trim_start(
                after(s@, i as int),
                |b: u8| is_blank(b),
            ),
        decreases s.len() - i,
    {
        assert(after(after(s@, i as int), 1) =~= after(s@, i + 1));
        i += 1;
    }
    i
}

/// `s` without the spaces and tabs at its end.
pub fn trim_end_blanks(s: &[u8]) -> (result: &[u8])
    ensures
        result@ == trim_end(s@, |b: u8| is_blank(b)),
{
    let mut n: usize = s.len();
    assert(before(s@, n as int) =~= s@);
    while n > 0 && is_blank(s[n - 1])
        invariant
            n <= s@.len(),
            trim_end(s@, |b: u8| is_blank(b)) == trim_end(
                before(s@, n as int),
                |b: u8| is_blank(b),
            ),
        decreases n,
    {
        assert(before(s@, n as int).drop_last() =~= before(s@, n - 1));
        n -= 1;
    }
    &s[0..n]
}

/// `s` without the spaces and tabs around it.
pub fn trim(s: &[u8]) -> (result: &[u8])
    ensures
        result@ == trim_blanks(s@),
{
    let start: usize = blank_prefix(s);
    trim_end_blanks(&s[start..s.len()])
}

/// What holds of every byte holds of every byte of what trimming leaves.
pub proof fn lemma_trim_all(s: Seq<u8>, p: spec_fn(u8) -> bool)
    requires
        all(s, p),
    ensures
        all(trim_blanks(s), p),
{
    lemma_trim_start_all(s, |b: u8| is_blank(b), p);
    lemma_trim_end_all(trim_start(s, |b: u8| is_blank(b)), |b: u8| is_blank(b), p);
}

proof fn lemma_trim_start_all(s: Seq<u8>, q: spec_fn(u8) -> bool, p: spec_fn(u8) -> bool)
    requires
        all(s, p),
    ensures
        all(trim_start(s, q), p),
    decreases s.len(),
{
    if s.len() > 0 && q(s[0]) {
        lemma_trim_start_all(after(s, 1), q, p);
    }
}

proof fn lemma_trim_end_all(s: Seq<u8>, q: spec_fn(u8) -> bool, p: spec_fn(u8) -> bool)
    requires
        all(s, p),
    ensures
        all(trim_end(s, q), p),
    decreases s.len(),
{
    if s.len() > 0 && q(s.last()) {
        lemma_trim_end_all(s.drop_last(), q, p);
    }
}

/// What follows `prefix` in `s`, where `s` begins with it.
pub fn strip_prefix<'a>(s: &'a [u8], prefix: &[u8]) -> (result: Option<&'a [u8]>)
    ensures
        match result {
            Some(rest) => stripped(s@, prefix@) == Some(rest@),
            None => stripped(s@, prefix@) is None,
        },
{
    if occurs(s, prefix, 0) {
        Some(&s[prefix.len()..s.len()])
    } else {
        None
    }
}

/// How many bytes at the start of `s` satisfy the predicate that `f` decides.
pub(crate) fn span_bytes(
    s: &[u8],
    f: impl Fn(u8) -> bool,
    Ghost(p): Ghost<spec_fn(u8) -> bool>,
) -> (result: usize)
    requires
        forall|b: u8| #[trigger] f.requires((b,)),
        forall|b: u8, r: bool| #[trigger] f.ensures((b,), r) ==> r == p(b),
    ensures
        result == span(s@, p),
        result <= s@.len(),
{
    let mut i: usize = 0;
    assert(after(s@, 0) =~= s@);
    while i < s.len()
        invariant
            i <= s.len(),
            forall|b: u8| #[trigger] f.requires((b,)),
            forall|b: u8, r: bool| #[trigger] f.ensures((b,), r) ==> r == p(b),
            span(s@, p) == i + span(after(s@, i as int), p),
        decreases s.len() - i,
    {
        if !f(s[i]) {
            return i;
        }
        assert(after(after(s@, i as int), 1) =~= after(s@, i + 1));
        i += 1;
    }
    i
}

/// The bytes that are counted satisfy the predicate, and the one behind them
/// does not.
pub proof fn lemma_span(s: Seq<u8>, p: spec_fn(u8) -> bool)
    ensures
        0 <= span(s, p) <= s.len(),
        all(before(s, span(s, p)), p),
        span(s, p) < s.len() ==> !p(s[span(s, p)]),
    decreases s.len(),
{
    if s.len() > 0 && p(s[0]) {
        let rest = after(s, 1);
        lemma_span(rest, p);
        assert forall|i: int| 0 <= i < span(s, p) implies p(#[trigger] before(s, span(s, p))[i]) by {
            if i > 0 {
                assert(before(s, span(s, p))[i] == before(rest, span(rest, p))[i - 1]);
            }
        }
    }
}

/// Whether a byte stands nowhere in `s`.
pub open spec fn is_free_of(s: Seq<u8>, b: u8) -> bool {
    forall|i: int| 0 <= i < s.len() ==> #[trigger] s[i] != b
}

/// Nothing is split where the separator's first byte does not occur.
pub proof fn lemma_split_none(s: Seq<u8>, separator: Seq<u8>)
    requires
        separator.len() > 0,
        is_free_of(s, separator[0]),
    ensures
        first_index(s, separator) is None,
        split_on(s, separator) == seq![s],
{
    lemma_first_index_none(s, separator);
    if contains(s, separator) {
        let i = choose|i: int| occurs_at(s, separator, i);
        assert(s.subrange(i, i + separator.len())[0] == separator[0]);
        assert(s[i] == separator[0]);
    }
}

/// A piece ends at the first separator behind it.
pub proof fn lemma_split_first(piece: Seq<u8>, separator: Seq<u8>, rest: Seq<u8>)
    requires
        separator.len() > 0,
        is_free_of(piece, separator[0]),
    ensures
        first_index(piece + separator + rest, separator) == Some(piece.len() as int),
        split_on(piece + separator + rest, separator) == seq![piece] + split_on(rest, separator),
{
    let s = piece + separator + rest;
    let n = piece.len() as int;
    assert(s.subrange(n, n + separator.len()) =~= separator);
    assert forall|j: int| 0 <= j < n implies !occurs_at(s, separator, j) by {
        if occurs_at(s, separator, j) {
            assert(s.subrange(j, j + separator.len())[0] == separator[0]);
            assert(piece[j] == separator[0]);
        }
    }
    lemma_first_index(s, separator, n);
    assert(before(s, n) =~= piece);
    assert(after(s, n + separator.len()) =~= rest);
}

/// There is at most one piece more than there are bytes.
pub proof fn lemma_split_count(s: Seq<u8>, separator: Seq<u8>)
    ensures
        1 <= split_on(s, separator).len() <= s.len() + 1,
    decreases s.len(),
{
    lemma_first_index_is_first(s, separator);
    match first_index(s, separator) {
        Some(i) if separator.len() > 0 => {
            lemma_split_count(after(s, i + separator.len()), separator);
        },
        _ => {},
    }
}

/// What holds of every byte of every piece, and of the separator, holds of
/// every byte.
pub proof fn lemma_joined_all(s: Seq<u8>, separator: Seq<u8>, p: spec_fn(u8) -> bool)
    requires
        all(separator, p),
        forall|k: int|
            0 <= k < split_on(s, separator).len() ==> all(#[trigger] split_on(s, separator)[k], p),
    ensures
        all(s, p),
    decreases s.len(),
{
    lemma_first_index_is_first(s, separator);
    match first_index(s, separator) {
        Some(i) if separator.len() > 0 => {
            let rest = after(s, i + separator.len());
            let pieces = split_on(s, separator);
            assert forall|k: int| 0 <= k < split_on(rest, separator).len() implies all(
                #[trigger] split_on(rest, separator)[k],
                p,
            ) by {
                assert(pieces[k + 1] == split_on(rest, separator)[k]);
            }
            lemma_joined_all(rest, separator, p);
            assert(all(pieces[0], p));
            assert forall|j: int| 0 <= j < s.len() implies p(#[trigger] s[j]) by {
                if j < i {
                    assert(before(s, i)[j] == s[j]);
                } else if j < i + separator.len() {
                    assert(s.subrange(i, i + separator.len())[j - i] == separator[j - i]);
                } else {
                    assert(rest[j - i - separator.len()] == s[j]);
                }
            }
        },
        _ => {
            assert(split_on(s, separator)[0] == s);
        },
    }
}

/// Trimming takes away exactly the spaces and tabs around a text that neither
/// begins nor ends with one.
pub proof fn lemma_trim_exact(left: Seq<u8>, core: Seq<u8>, right: Seq<u8>)
    requires
        all(left, |b: u8| is_blank(b)),
        all(right, |b: u8| is_blank(b)),
        core.len() > 0 ==> !is_blank(core[0]) && !is_blank(core.last()),
    ensures
        trim_blanks(left + core + right) == core,
    decreases left.len() + right.len(),
{
    let p = |b: u8| is_blank(b);
    let s = left + core + right;
    if left.len() > 0 {
        assert(is_blank(left[0]));
        assert(after(s, 1) =~= after(left, 1) + core + right);
        lemma_trim_exact(after(left, 1), core, right);
    } else if core.len() == 0 && right.len() > 0 {
        assert(is_blank(right[0]));
        assert(s =~= right);
        assert(after(s, 1) =~= left + core + after(right, 1));
        lemma_trim_exact(left, core, after(right, 1));
    } else if right.len() > 0 {
        assert(s[0] == core[0]);
        assert(is_blank(right.last()));
        assert(s.last() == right.last());
        assert(s.drop_last() =~= left + core + right.drop_last());
        assert(s.drop_last()[0] == core[0]);
        lemma_trim_exact(left, core, right.drop_last());
    } else {
        assert(s =~= core);
    }
}

/// Trimming the end takes away only bytes that satisfy the predicate.
pub proof fn lemma_trim_end_cuts(s: Seq<u8>, p: spec_fn(u8) -> bool)
    ensures
        trim_end(s, p).len() <= s.len(),
        trim_end(s, p) == before(s, trim_end(s, p).len() as int),
        all(after(s, trim_end(s, p).len() as int), p),
    decreases s.len(),
{
    if s.len() > 0 && p(s.last()) {
        lemma_trim_end_cuts(s.drop_last(), p);
        let n = trim_end(s, p).len() as int;
        assert(before(s, n) =~= before(s.drop_last(), n));
        assert forall|i: int| 0 <= i < after(s, n).len() implies p(#[trigger] after(s, n)[i]) by {
            if i < after(s, n).len() - 1 {
                assert(after(s.drop_last(), n)[i] == after(s, n)[i]);
            }
        }
    } else {
        assert(before(s, s.len() as int) =~= s);
    }
}

/// The first piece stands at the beginning.
pub proof fn lemma_split_begins(s: Seq<u8>, separator: Seq<u8>)
    ensures
        split_on(s, separator).len() > 0,
        split_on(s, separator)[0].len() <= s.len(),
        split_on(s, separator)[0] == before(s, split_on(s, separator)[0].len() as int),
{
    lemma_first_index_is_first(s, separator);
    assert(before(s, s.len() as int) =~= s);
}

/// A length to which a piece and the separator behind it are added.
spec fn lengthened(separator: Seq<u8>) -> spec_fn(int, Seq<u8>) -> int {
    |sum: int, piece: Seq<u8>| sum + piece.len() + separator.len()
}

proof fn lemma_split_lengths(s: Seq<u8>, separator: Seq<u8>, sum: int)
    requires
        separator.len() > 0,
    ensures
        split_on(s, separator).fold_left_alt(sum, lengthened(separator)) == sum + s.len()
            + separator.len(),
    decreases s.len(),
{
    let f = lengthened(separator);
    let pieces = split_on(s, separator);
    let tail = pieces.subrange(1, pieces.len() as int);
    lemma_split_begins(s, separator);
    lemma_first_index_is_first(s, separator);
    reveal_with_fuel(Seq::fold_left_alt, 2);
    match first_index(s, separator) {
        Some(i) => {
            let rest = after(s, i + separator.len());
            lemma_split_lengths(rest, separator, sum + i + separator.len());
            assert(tail =~= split_on(rest, separator));
            assert(f(sum, pieces[0]) == sum + i + separator.len());
        },
        None => {
            assert(tail =~= Seq::<Seq<u8>>::empty());
        },
    }
}

/// What consists of the same pieces in another order is as long, and its bytes
/// are the same.
pub proof fn lemma_reordered(s: Seq<u8>, other: Seq<u8>, separator: Seq<u8>, p: spec_fn(u8) -> bool)
    requires
        separator.len() > 0,
        split_on(s, separator).to_multiset() == split_on(other, separator).to_multiset(),
    ensures
        s.len() == other.len(),
        all(s, p) && all(separator, p) ==> all(other, p),
{
    broadcast use vstd::seq_lib::group_to_multiset_ensures;

    let f = lengthened(separator);
    let pieces = split_on(s, separator);
    let reordered = split_on(other, separator);
    lemma_split_lengths(s, separator, 0);
    lemma_split_lengths(other, separator, 0);
    pieces.lemma_fold_left_alt(0, f);
    reordered.lemma_fold_left_alt(0, f);
    vstd::seq_lib::lemma_fold_left_permutation(pieces, reordered, f, 0);
    if all(s, p) && all(separator, p) {
        lemma_split_all(s, separator, p);
        assert forall|k: int| 0 <= k < reordered.len() implies all(#[trigger] reordered[k], p) by {
            assert(reordered.contains(reordered[k]));
            assert(reordered.to_multiset().count(reordered[k]) > 0);
            assert(pieces.to_multiset().count(reordered[k]) > 0);
            let i = choose|i: int| 0 <= i < pieces.len() && pieces[i] == reordered[k];
            assert(all(pieces[i], p));
        }
        lemma_joined_all(other, separator, p);
    }
}

/// Whether what stands from index `i` up to index `j` is a piece between
/// separating bytes: it holds none of them, and one or an end of the text
/// stands on either side.
pub open spec fn is_piece(s: Seq<u8>, b: u8, i: int, j: int) -> bool {
    &&& 0 <= i <= j <= s.len()
    &&& i == 0 || s[i - 1] == b
    &&& j == s.len() || s[j] == b
    &&& forall|k: int| i <= k < j ==> #[trigger] s[k] != b
}

/// Where a byte stands first, by the index of the one-byte pattern.
pub proof fn lemma_first_byte(s: Seq<u8>, b: u8)
    ensures
        match first_index(s, seq![b]) {
            Some(i) => 0 <= i < s.len() && s[i] == b && is_free_of(before(s, i), b),
            None => is_free_of(s, b),
        },
{
    let mark = seq![b];
    lemma_first_index_is_first(s, mark);
    lemma_first_index_none(s, mark);
    match first_index(s, mark) {
        Some(i) => {
            assert(s.subrange(i, i + 1)[0] == mark[0]);
            assert forall|j: int| 0 <= j < i implies #[trigger] before(s, i)[j] != b by {
                if s[j] == b {
                    assert(s.subrange(j, j + 1) =~= mark);
                    assert(occurs_at(s, mark, j));
                }
            }
        },
        None => {
            assert forall|j: int| 0 <= j < s.len() implies #[trigger] s[j] != b by {
                if s[j] == b {
                    assert(s.subrange(j, j + 1) =~= mark);
                    assert(occurs_at(s, mark, j));
                }
            }
        },
    }
}

/// Splitting at a byte gives exactly the pieces between the places where it
/// stands.
pub proof fn law_pieces_stand_between_separators(s: Seq<u8>, b: u8, piece: Seq<u8>)
    ensures
        split_on(s, seq![b]).contains(piece) <==> exists|i: int, j: int| #[trigger]
            is_piece(s, b, i, j) && s.subrange(i, j) == piece,
    decreases s.len(),
{
    let pieces = split_on(s, seq![b]);
    lemma_first_byte(s, b);
    match first_index(s, seq![b]) {
        None => {
            assert(s.subrange(0, s.len() as int) =~= s);
            if pieces.contains(piece) {
                assert(is_piece(s, b, 0, s.len() as int));
            }
            if exists|i: int, j: int| #[trigger] is_piece(s, b, i, j) && s.subrange(i, j) == piece {
                let (i, j) = choose|i: int, j: int| #[trigger]
                    is_piece(s, b, i, j) && s.subrange(i, j) == piece;
                assert(i == 0 && j == s.len());
                assert(pieces[0] == piece);
            }
        },
        Some(n) => {
            let rest = after(s, n + 1);
            law_pieces_stand_between_separators(rest, b, piece);
            if pieces.contains(piece) {
                let k = choose|k: int| 0 <= k < pieces.len() && pieces[k] == piece;
                if k == 0 {
                    assert forall|m: int| 0 <= m < n implies #[trigger] s[m] != b by {
                        assert(before(s, n)[m] != b);
                    }
                    assert(is_piece(s, b, 0, n));
                    assert(s.subrange(0, n) =~= piece);
                } else {
                    assert(split_on(rest, seq![b])[k - 1] == piece);
                    assert(split_on(rest, seq![b]).contains(piece));
                    let (i, j) = choose|i: int, j: int| #[trigger]
                        is_piece(rest, b, i, j) && rest.subrange(i, j) == piece;
                    assert forall|m: int| i + n + 1 <= m < j + n + 1 implies #[trigger] s[m] != b by {
                        assert(rest[m - n - 1] != b);
                    }
                    if i > 0 {
                        assert(rest[i - 1] == s[i + n]);
                    }
                    if j < rest.len() {
                        assert(rest[j] == s[j + n + 1]);
                    }
                    assert(is_piece(s, b, i + n + 1, j + n + 1));
                    assert(s.subrange(i + n + 1, j + n + 1) =~= piece);
                }
            }
            if exists|i: int, j: int| #[trigger] is_piece(s, b, i, j) && s.subrange(i, j) == piece {
                let (i, j) = choose|i: int, j: int| #[trigger]
                    is_piece(s, b, i, j) && s.subrange(i, j) == piece;
                if i <= n {
                    assert(i == 0) by {
                        if i > 0 {
                            assert(before(s, n)[i - 1] != b);
                        }
                    }
                    assert(j == n) by {
                        if j < n {
                            assert(before(s, n)[j] != b);
                        }
                    }
                    assert(pieces[0] =~= piece);
                } else {
                    assert forall|m: int| i - n - 1 <= m < j - n - 1 implies #[trigger] rest[m] != b by {
                        assert(s[m + n + 1] != b);
                    }
                    assert(is_piece(rest, b, i - n - 1, j - n - 1));
                    assert(rest.subrange(i - n - 1, j - n - 1) =~= piece);
                    let k = choose|k: int|
                        0 <= k < split_on(rest, seq![b]).len() && split_on(rest, seq![b])[k]
                            == piece;
                    assert(pieces[k + 1] == piece);
                }
            }
        },
    }
}

/// What follows the last separator is the last piece.
pub proof fn lemma_split_last(s: Seq<u8>, b: u8, piece: Seq<u8>)
    requires
        is_free_of(piece, b),
    ensures
        split_on(s + seq![b] + piece, seq![b]) == split_on(s, seq![b]).push(piece),
    decreases s.len(),
{
    let mark = seq![b];
    let all = s + mark + piece;
    lemma_first_byte(s, b);
    lemma_split_none(piece, mark);
    match first_index(s, mark) {
        None => {
            lemma_split_first(s, mark, piece);
            assert(seq![s] + seq![piece] =~= seq![s].push(piece));
        },
        Some(i) => {
            let head = before(s, i);
            let rest = after(s, i + 1);
            assert(all =~= head + mark + (rest + mark + piece));
            lemma_split_first(head, mark, rest + mark + piece);
            lemma_split_last(rest, b, piece);
            assert(seq![head] + split_on(rest, mark).push(piece) =~= (seq![head] + split_on(
                rest,
                mark,
            )).push(piece));
        },
    }
}

/// Pieces one after the other, with a byte between them.
pub open spec fn joined(pieces: Seq<Seq<u8>>, b: u8) -> Seq<u8>
    decreases pieces.len(),
{
    if pieces.len() == 0 {
        Seq::empty()
    } else if pieces.len() == 1 {
        pieces[0]
    } else {
        joined(pieces.drop_last(), b) + seq![b] + pieces.last()
    }
}

/// Splitting undoes joining.
pub proof fn law_joined_pieces_are_split(pieces: Seq<Seq<u8>>, b: u8)
    requires
        pieces.len() > 0,
        forall|i: int| 0 <= i < pieces.len() ==> is_free_of(#[trigger] pieces[i], b),
    ensures
        split_on(joined(pieces, b), seq![b]) == pieces,
    decreases pieces.len(),
{
    let last = pieces[pieces.len() - 1];
    assert(is_free_of(last, b));
    if pieces.len() == 1 {
        lemma_split_none(last, seq![b]);
        assert(pieces =~= seq![last]);
    } else {
        let fewer = pieces.drop_last();
        assert forall|i: int| 0 <= i < fewer.len() implies is_free_of(#[trigger] fewer[i], b) by {
            assert(is_free_of(pieces[i], b));
        }
        law_joined_pieces_are_split(fewer, b);
        lemma_split_last(joined(fewer, b), b, last);
        assert(fewer.push(last) =~= pieces);
    }
}

/// Joining undoes splitting, and the pieces hold no separators.
pub proof fn law_split_pieces_are_joined(s: Seq<u8>, b: u8)
    ensures
        joined(split_on(s, seq![b]), b) == s,
        split_on(s, seq![b]).len() > 0,
        forall|i: int|
            0 <= i < split_on(s, seq![b]).len() ==> is_free_of(
                #[trigger] split_on(s, seq![b])[i],
                b,
            ),
    decreases s.len(),
{
    let pieces = split_on(s, seq![b]);
    lemma_first_byte(s, b);
    match first_index(s, seq![b]) {
        None => {},
        Some(n) => {
            let rest = after(s, n + 1);
            law_split_pieces_are_joined(rest, b);
            lemma_joined_first(before(s, n), split_on(rest, seq![b]), b);
            assert(s =~= before(s, n) + seq![b] + rest);
            assert forall|i: int| 0 <= i < pieces.len() implies is_free_of(
                #[trigger] pieces[i],
                b,
            ) by {
                if i > 0 {
                    assert(pieces[i] == split_on(rest, seq![b])[i - 1]);
                }
            }
        },
    }
}

/// The first of some pieces stands before the others.
pub proof fn lemma_joined_first(piece: Seq<u8>, tail: Seq<Seq<u8>>, b: u8)
    requires
        tail.len() > 0,
    ensures
        joined(seq![piece] + tail, b) == piece + seq![b] + joined(tail, b),
    decreases tail.len(),
{
    let all = seq![piece] + tail;
    assert(all.drop_last() =~= seq![piece] + tail.drop_last());
    assert(all.last() == tail.last());
    if tail.len() == 1 {
        assert(all.drop_last() =~= seq![piece]);
        assert(joined(seq![piece], b) == piece);
    } else {
        lemma_joined_first(piece, tail.drop_last(), b);
        assert(joined(all, b) =~= piece + seq![b] + joined(tail, b));
    }
}

} // verus!
