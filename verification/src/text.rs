//! Between byte strings and Rust strings.

use crate::bytes;
use vstd::prelude::*;
use vstd::string::*;
use vstd::utf8::*;

verus! {

/// The string that a byte slice encodes, where it is valid UTF-8.
///
/// Calls [`core::str::from_utf8`]. What is taken on trust is that it succeeds
/// on exactly the valid UTF-8 sequences, and that the string it returns has
/// the given bytes as its encoding.
#[verifier::external_body]
pub(crate) fn utf8_text(bytes: &[u8]) -> (result: Option<&str>)
    ensures
        result is Some <==> valid_utf8(bytes@),
        result matches Some(text) ==> text.spec_bytes() == bytes@,
{
    match core::str::from_utf8(bytes) {
        Ok(text) => Some(text),
        Err(_error) => None,
    }
}

/// ASCII is valid UTF-8.
pub proof fn lemma_ascii_is_utf8(s: Seq<u8>)
    requires
        bytes::is_ascii(s),
    ensures
        valid_utf8(s),
{
    assert(s.subrange(0, 0) =~= Seq::<u8>::empty());
    assert(partial_valid_utf8(s, 0));
    assert forall|i: int| 0 <= i < s.len() implies #[trigger] is_leading_byte_width_1(s[i]) by {}
    partial_valid_utf8_extend_ascii_block(s, 0, s.len() as int);
    assert(s.subrange(0, s.len() as int) =~= s);
}

/// Two texts with the same encoding are the same text, so that what is stated
/// of a text's bytes determines the text.
pub proof fn law_texts_are_determined_by_their_bytes(a: Seq<char>, b: Seq<char>)
    requires
        encode_utf8(a) == encode_utf8(b),
    ensures
        a == b,
{
    encode_utf8_decode_utf8(a);
    encode_utf8_decode_utf8(b);
}

/// The string with the given encoding.
pub(crate) fn utf8_string(bytes: &[u8]) -> (result: String)
    requires
        valid_utf8(bytes@),
    ensures
        encode_utf8(result@) == bytes@,
{
    match utf8_text(bytes) {
        Some(text) => text.to_owned(),
        None => String::new(),
    }
}

/// Adds the bytes of `s` at the end of `output`.
pub(crate) fn append(output: &mut Vec<u8>, s: &[u8])
    ensures
        final(output)@ == old(output)@ + s@,
{
    output.extend_from_slice(s);
    assert(output@ =~= old(output)@ + s@);
}

/// Whether a Unicode scalar value has the `White_Space` property.
#[verifier::allow_in_spec]
pub fn is_space_scalar(c: u32) -> bool
    returns
        (0x09 <= c && c <= 0x0d) || c == 0x20 || c == 0x85 || c == 0xa0 || c == 0x1680 || (0x2000
            <= c && c <= 0x200a) || c == 0x2028 || c == 0x2029 || c == 0x202f || c == 0x205f || c
            == 0x3000,
{
    (0x09 <= c && c <= 0x0d) || c == 0x20 || c == 0x85 || c == 0xa0 || c == 0x1680 || (0x2000 <= c
        && c <= 0x200a) || c == 0x2028 || c == 0x2029 || c == 0x202f || c == 0x205f || c == 0x3000
}

/// A text without the white space that it begins with.
pub open spec fn trim_space_start(s: Seq<u8>) -> Seq<u8>
    decreases s.len(),
{
    if valid_first_scalar(s) && is_space_scalar(decode_first_scalar(s)) {
        trim_space_start(pop_first_scalar(s))
    } else {
        s
    }
}

/// The first scalar value of a nonempty text, and the length of its encoding.
pub(crate) fn first_scalar(s: &[u8]) -> (result: (u32, usize))
    requires
        valid_utf8(s@),
        s@.len() > 0,
    ensures
        result.0 == decode_first_scalar(s@),
        result.1 == length_of_first_scalar(s@),
        1 <= result.1 <= s@.len(),
{
    let b0: u8 = s[0];
    if b0 <= 0x7f {
        ((b0 & 0x7f) as u32, 1)
    } else if b0 <= 0xdf {
        (((b0 & 0x1f) as u32) << 6 | (s[1] & 0x3f) as u32, 2)
    } else if b0 <= 0xef {
        (
            ((b0 & 0x0f) as u32) << 12 | ((s[1] & 0x3f) as u32) << 6 | (s[2] & 0x3f) as u32,
            3,
        )
    } else {
        (
            ((b0 & 0x07) as u32) << 18 | ((s[1] & 0x3f) as u32) << 12 | ((s[2] & 0x3f) as u32) << 6
                | (s[3] & 0x3f) as u32,
            4,
        )
    }
}

/// A text without the white space that it begins with.
pub(crate) fn trim_start(s: &[u8]) -> (result: &[u8])
    requires
        valid_utf8(s@),
    ensures
        result@ == trim_space_start(s@),
        valid_utf8(result@),
{
    let mut rest: &[u8] = s;
    while rest.len() > 0
        invariant
            valid_utf8(rest@),
            trim_space_start(s@) == trim_space_start(rest@),
        decreases rest@.len(),
    {
        let (scalar, width) = first_scalar(rest);
        if !is_space_scalar(scalar) {
            return rest;
        }
        rest = &rest[width..rest.len()];
    }
    rest
}

/// A text may be cut behind any ASCII byte.
pub proof fn lemma_cut_behind_ascii(s: Seq<u8>, i: int)
    requires
        valid_utf8(s),
        0 <= i < s.len(),
        s[i] < 0x80,
    ensures
        valid_utf8(bytes::before(s, i)),
        valid_utf8(bytes::after(s, i)),
        valid_utf8(bytes::before(s, i + 1)),
        valid_utf8(bytes::after(s, i + 1)),
{
    is_char_boundary_iff_not_is_continuation_byte(s, i);
    valid_utf8_split(s, i);
    let tail = bytes::after(s, i);
    assert(pop_first_scalar(tail) =~= bytes::after(s, i + 1));
    assert(take_first_scalar(tail) =~= seq![s[i]]);
    lemma_ascii_is_utf8(seq![s[i]]);
    valid_utf8_concat(bytes::before(s, i), seq![s[i]]);
    assert(bytes::before(s, i) + seq![s[i]] =~= bytes::before(s, i + 1));
}

/// A text may be cut behind an ASCII text that it begins with.
pub proof fn lemma_cut_behind_prefix(s: Seq<u8>, prefix: Seq<u8>, i: int)
    requires
        valid_utf8(s),
        bytes::is_ascii(prefix),
        bytes::occurs_at(s, prefix, i),
        prefix.len() > 0,
    ensures
        valid_utf8(bytes::before(s, i)),
        valid_utf8(bytes::after(s, i + prefix.len())),
{
    assert(s.subrange(i, i + prefix.len())[0] == prefix[0]);
    assert(s.subrange(i, i + prefix.len())[prefix.len() - 1] == prefix[prefix.len() - 1]);
    lemma_cut_behind_ascii(s, i);
    lemma_cut_behind_ascii(s, i + prefix.len() - 1);
}

/// The encoding of a scalar value is a text.
pub proof fn lemma_scalar_is_utf8(c: u32)
    requires
        is_scalar(c),
    ensures
        valid_utf8(encode_scalar(c)),
{
    let text = seq![c as char];
    assert(text.drop_first() =~= Seq::<char>::empty());
    assert(encode_utf8(text.drop_first()) =~= Seq::<u8>::empty());
    assert(encode_utf8(text) =~= encode_scalar(c));
    encode_utf8_valid_utf8(text);
}

/// Adds the encoding of a scalar value at the end of `output`.
pub(crate) fn push_scalar(output: &mut Vec<u8>, c: u32)
    requires
        is_scalar(c),
    ensures
        final(output)@ == old(output)@ + encode_scalar(c),
{
    if c <= 0x7f {
        output.push((c & 0x7f) as u8);
    } else if c <= 0x7ff {
        output.push(0xc0 | ((c >> 6) & 0x1f) as u8);
        output.push(0x80 | (c & 0x3f) as u8);
    } else if c <= 0xffff {
        output.push(0xe0 | ((c >> 12) & 0x0f) as u8);
        output.push(0x80 | ((c >> 6) & 0x3f) as u8);
        output.push(0x80 | (c & 0x3f) as u8);
    } else {
        output.push(0xf0 | ((c >> 18) & 0x7) as u8);
        output.push(0x80 | ((c >> 12) & 0x3f) as u8);
        output.push(0x80 | ((c >> 6) & 0x3f) as u8);
        output.push(0x80 | (c & 0x3f) as u8);
    }
    assert(output@ =~= old(output)@ + encode_scalar(c));
}

/// The encoding of two texts in a row.
pub proof fn lemma_encoded_concat(a: Seq<char>, b: Seq<char>)
    ensures
        encode_utf8(a + b) == encode_utf8(a) + encode_utf8(b),
    decreases a.len(),
{
    if a.len() == 0 {
        assert(a + b =~= b);
        assert(encode_utf8(a) + encode_utf8(b) =~= encode_utf8(b));
    } else {
        assert((a + b).drop_first() =~= a.drop_first() + b);
        lemma_encoded_concat(a.drop_first(), b);
        assert(encode_utf8(a + b) =~= encode_utf8(a) + encode_utf8(b));
    }
}

/// Whether a character is white space: a control character that moves the
/// cursor, or one of the separators of Unicode.
pub open spec fn is_white(c: char) -> bool {
    let n = c as u32;
    ||| 0x09 <= n <= 0x0d
    ||| n == 0x20
    ||| n == 0x85
    ||| n == 0xa0
    ||| n == 0x1680
    ||| 0x2000 <= n <= 0x200a
    ||| n == 0x2028
    ||| n == 0x2029
    ||| n == 0x202f
    ||| n == 0x205f
    ||| n == 0x3000
}

/// Whether a text is white space.
pub open spec fn is_white_text(s: Seq<char>) -> bool {
    forall|i: int| 0 <= i < s.len() ==> is_white(#[trigger] s[i])
}

/// White space is taken away up to the first other character.
pub proof fn law_white_space_is_trimmed(white: Seq<char>, rest: Seq<char>)
    requires
        is_white_text(white),
        rest.len() > 0 ==> !is_white(rest[0]),
    ensures
        trim_space_start(encode_utf8(white + rest)) == encode_utf8(rest),
    decreases white.len(),
{
    let all = white + rest;
    if white.len() > 0 {
        encode_utf8_first_scalar(all);
        assert(is_white(white[0]));
        assert(all.drop_first() =~= white.drop_first() + rest);
        assert(pop_first_scalar(encode_utf8(all)) =~= encode_utf8(all.drop_first()));
        assert forall|i: int| 0 <= i < white.drop_first().len() implies is_white(
            #[trigger] white.drop_first()[i],
        ) by {
            assert(is_white(white[i + 1]));
        }
        law_white_space_is_trimmed(white.drop_first(), rest);
    } else {
        assert(all =~= rest);
        if rest.len() > 0 {
            encode_utf8_first_scalar(rest);
        } else {
            assert(encode_utf8(rest) =~= Seq::<u8>::empty());
        }
    }
}

/// What is trimmed is white space.
pub proof fn lemma_trimmed_is_white(s: Seq<u8>) -> (white: Seq<char>)
    requires
        valid_utf8(s),
    ensures
        is_white_text(white),
        s == encode_utf8(white) + trim_space_start(s),
        valid_utf8(trim_space_start(s)),
    decreases s.len(),
{
    if valid_first_scalar(s) && is_space_scalar(decode_first_scalar(s)) {
        let rest = pop_first_scalar(s);
        let c = decode_first_scalar(s) as char;
        let others = lemma_trimmed_is_white(rest);
        let white = seq![c] + others;
        let chars = decode_utf8(s);
        decode_utf8_encode_utf8(s);
        decode_utf8_encode_utf8(rest);
        assert(chars == seq![c] + decode_utf8(rest));
        assert(chars.drop_first() =~= decode_utf8(rest));
        assert(s == encode_scalar(c as u32) + rest);
        assert(white.drop_first() =~= others);
        assert(encode_utf8(white) == encode_scalar(c as u32) + encode_utf8(others));
        assert(s =~= encode_utf8(white) + trim_space_start(s));
        assert forall|i: int| 0 <= i < white.len() implies is_white(#[trigger] white[i]) by {
            if i > 0 {
                assert(is_white(others[i - 1]));
            }
        }
        white
    } else {
        let white = Seq::<char>::empty();
        assert(encode_utf8(white) =~= Seq::<u8>::empty());
        assert(s =~= encode_utf8(white) + s);
        white
    }
}

/// What follows ASCII characters is still valid.
pub proof fn lemma_valid_behind_ascii(s: Seq<u8>, n: int)
    requires
        valid_utf8(s),
        0 <= n <= s.len(),
        forall|i: int| 0 <= i < n ==> #[trigger] s[i] < 0x80,
    ensures
        valid_utf8(s.subrange(n, s.len() as int)),
    decreases n,
{
    if n == 0 {
        assert(s.subrange(0, s.len() as int) =~= s);
    } else {
        let rest = pop_first_scalar(s);
        assert(s[0] < 0x80);
        assert(rest =~= s.subrange(1, s.len() as int));
        assert forall|i: int| 0 <= i < n - 1 implies #[trigger] rest[i] < 0x80 by {
            assert(s[i + 1] < 0x80);
        }
        lemma_valid_behind_ascii(rest, n - 1);
        assert(rest.subrange(n - 1, rest.len() as int) =~= s.subrange(n, s.len() as int));
    }
}

/// A valid text may be cut before an ASCII character.
pub proof fn lemma_valid_before_ascii(s: Seq<u8>, n: int)
    requires
        valid_utf8(s),
        0 <= n < s.len(),
        s[n] < 0x80,
    ensures
        valid_utf8(s.subrange(0, n)),
        valid_utf8(s.subrange(n, s.len() as int)),
{
    is_char_boundary_iff_not_is_continuation_byte(s, n);
    valid_utf8_split(s, n);
}

} // verus!
