//! Responses as servers write them, and what they are read as.

use crate::bytes;
use crate::chunked;
use crate::error::{HttpError, HttpErrorKind};
use crate::header;
use crate::number;
use crate::response;
use vstd::prelude::*;
use vstd::string::*;
use vstd::utf8::*;

verus! {

/// A header line: a name, and a value between blanks.
pub struct Line {
    pub name: Seq<u8>,
    pub left: Seq<u8>,
    pub value: Seq<u8>,
    pub right: Seq<u8>,
}

/// The characters of HTTP tokens: letters, digits and ``!#$%&'*+-.^_`|~``.
pub open spec fn is_token_character(b: u8) -> bool {
    ||| 0x30 <= b <= 0x39
    ||| 0x41 <= b <= 0x5a
    ||| 0x61 <= b <= 0x7a
    ||| b == 0x21
    ||| 0x23 <= b <= 0x27
    ||| b == 0x2a
    ||| b == 0x2b
    ||| b == 0x2d
    ||| b == 0x2e
    ||| 0x5e <= b <= 0x60
    ||| b == 0x7c
    ||| b == 0x7e
}

/// Whether a byte is a space or a tab.
pub open spec fn is_gap(b: u8) -> bool {
    b == 0x20 || b == 0x09
}

/// Whether a header line is well formed: its name is a nonempty string of token
/// characters, only spaces and tabs surround its value, and the value is ASCII
/// without control characters other than tabs.
pub open spec fn is_line(line: Line) -> bool {
    &&& line.name.len() > 0
    &&& forall|i: int| 0 <= i < line.name.len() ==> is_token_character(#[trigger] line.name[i])
    &&& forall|i: int| 0 <= i < line.left.len() ==> is_gap(#[trigger] line.left[i])
    &&& forall|i: int| 0 <= i < line.right.len() ==> is_gap(#[trigger] line.right[i])
    &&& forall|i: int|
        0 <= i < line.value.len() ==> (0x20 <= #[trigger] line.value[i] <= 0x7e || line.value[i]
            == 0x09)
    &&& line.value.len() > 0 ==> !is_gap(line.value[0]) && !is_gap(line.value.last())
}

/// How a header line is written.
pub open spec fn written_line(line: Line) -> Seq<u8> {
    line.name + seq![0x3au8] + (line.left + line.value + line.right)
}

/// How header lines are written.
pub open spec fn written_lines(lines: Seq<Line>) -> Seq<Seq<u8>> {
    Seq::new(lines.len(), |i: int| written_line(lines[i]))
}

/// Lines one after the other, each with its line end.
pub open spec fn joined(texts: Seq<Seq<u8>>) -> Seq<u8>
    decreases texts.len(),
{
    if texts.len() == 0 {
        Seq::empty()
    } else {
        texts[0] + seq![0x0du8, 0x0au8] + joined(texts.drop_first())
    }
}

/// A response as it is sent.
pub struct Answer {
    pub version: Seq<u8>,
    pub code: Seq<u8>,
    pub reason: Option<Seq<u8>>,
    pub lines: Seq<Line>,
    pub body: Seq<u8>,
}

/// The first line of a response.
pub open spec fn status_line(answer: Answer) -> Seq<u8> {
    answer.version + seq![0x20u8] + answer.code + match answer.reason {
        Some(reason) => seq![0x20u8] + reason,
        None => Seq::empty(),
    }
}

/// The header of a response, with the blank line that ends it.
pub open spec fn head(answer: Answer) -> Seq<u8> {
    joined(seq![status_line(answer)] + written_lines(answer.lines)) + seq![0x0du8, 0x0au8]
}

/// A response as it is sent.
pub open spec fn sent(answer: Answer) -> Seq<u8> {
    head(answer) + answer.body
}

/// Whether a response is well formed: it names version 1.0 or 1.1 of HTTP, a
/// status of three digits from 100 to 599 and perhaps a reason, its header lines
/// are well formed, and its header has at most 32768 bytes.
pub open spec fn is_answer(answer: Answer, status: u16) -> bool {
    &&& answer.version == "HTTP/1.1".spec_bytes() || answer.version == "HTTP/1.0".spec_bytes()
    &&& answer.code.len() == 3
    &&& number::writes(answer.code, 10, status as nat)
    &&& 100 <= status <= 599
    &&& answer.reason matches Some(reason) ==> forall|i: int|
        0 <= i < reason.len() ==> #[trigger] reason[i] < 0x80
    &&& answer.reason matches Some(reason) ==> is_of_one_line(reason)
    &&& forall|i: int| 0 <= i < answer.lines.len() ==> is_line(#[trigger] answer.lines[i])
    &&& head(answer).len() <= 32768
}

/// Whether two bytes are the same up to the case of a letter.
pub open spec fn same_letter(a: u8, b: u8) -> bool {
    ||| a == b
    ||| 0x41 <= a <= 0x5a && b == a + 32
    ||| 0x41 <= b <= 0x5a && a == b + 32
}

/// Whether two words are the same up to the case of letters.
pub open spec fn same_word(a: Seq<u8>, b: Seq<u8>) -> bool {
    a.len() == b.len() && forall|i: int| 0 <= i < a.len() ==> same_letter(#[trigger] a[i], b[i])
}

/// The values of the header lines of a name, in whatever case it is written.
pub open spec fn values(lines: Seq<Line>, name: Seq<u8>) -> Seq<Seq<u8>>
    decreases lines.len(),
{
    if lines.len() == 0 {
        Seq::empty()
    } else if same_word(lines[0].name, name) {
        seq![lines[0].value] + values(lines.drop_first(), name)
    } else {
        values(lines.drop_first(), name)
    }
}

/// Whether a value gives a length: decimal digits, perhaps behind a plus sign.
pub open spec fn gives_length(value: Seq<u8>, n: nat) -> bool {
    &&& n <= u64::MAX
    &&& number::writes(value, 10, n) || (value.len() > 0 && value[0] == 0x2b && number::writes(
        bytes::after(value, 1),
        10,
        n,
    ))
}

/// The only one of some values, where there are any.
pub open spec fn only(values: Seq<Seq<u8>>) -> Option<Seq<u8>> {
    if values.len() == 0 {
        None
    } else {
        Some(values[0])
    }
}

proof fn lemma_same_word(a: Seq<u8>, b: Seq<u8>)
    ensures
        same_word(a, b) == bytes::equal_ignoring_case(a, b),
{
    if same_word(a, b) {
        assert forall|i: int| 0 <= i < a.len() implies bytes::to_lowercase(#[trigger] a[i])
            == bytes::to_lowercase(b[i]) by {
            assert(same_letter(a[i], b[i]));
        }
    }
    if bytes::equal_ignoring_case(a, b) {
        assert forall|i: int| 0 <= i < a.len() implies same_letter(#[trigger] a[i], b[i]) by {
            assert(bytes::to_lowercase(a[i]) == bytes::to_lowercase(b[i]));
        }
    }
}

/// The length that a value gives, where it gives one.
spec fn length_of(value: Seq<u8>) -> Option<u64> {
    match number::parsed(number::unsigned(value), 10, u64::MAX as nat) {
        Some(n) => Some(n as u64),
        None => None,
    }
}

proof fn lemma_length_of(value: Seq<u8>, n: nat)
    ensures
        gives_length(value, n) <==> length_of(value) == Some(n as u64) && n <= u64::MAX,
{
    let plus = '+' as u8;
    assert(plus == 0x2b);
    let digits = number::unsigned(value);
    if n <= u64::MAX {
        number::law_written_numbers_are_read(value, 10, n, u64::MAX as nat);
        number::law_written_numbers_are_read(digits, 10, n, u64::MAX as nat);
        if value.len() > 0 && value[0] == plus && number::writes(value, 10, n) {
            assert(number::is_radix_digit(value[0], 10));
        }
    }
}

/// A field that may be set once, after the lines that set it.
spec fn merged(slot: Option<Seq<u8>>, values: Seq<Seq<u8>>) -> Option<Option<Seq<u8>>> {
    match slot {
        Some(_) => if values.len() == 0 {
            Some(slot)
        } else {
            None
        },
        None => if values.len() <= 1 {
            Some(only(values))
        } else {
            None
        },
    }
}

/// A length that may be set once, after the lines that set it.
spec fn merged_length(slot: Option<u64>, values: Seq<Seq<u8>>) -> Option<Option<u64>> {
    match slot {
        Some(_) => if values.len() == 0 {
            Some(slot)
        } else {
            None
        },
        None => if values.len() == 0 {
            Some(None)
        } else if values.len() == 1 && length_of(values[0]) is Some {
            Some(length_of(values[0]))
        } else {
            None
        },
    }
}

/// What a well-formed line says is read from it.
proof fn lemma_line_reads(fields: header::HeaderFields, line: Line)
    requires
        is_line(line),
    ensures
        header::with_line(fields, written_line(line)) == header::with_field(
            fields,
            line.name,
            line.value,
        ),
        written_line(line).len() > 0,
        bytes::is_ascii(written_line(line)),
        bytes::is_free_of(written_line(line), 0x0d),
{
    let colon = ':' as u8;
    assert(colon == 0x3a);
    let text = written_line(line);
    assert forall|i: int| 0 <= i < line.name.len() implies header::is_token_byte(
        #[trigger] line.name[i],
    ) by {
        assert(is_token_character(line.name[i]));
    }
    assert forall|i: int| 0 <= i < line.value.len() implies header::is_value_byte(
        #[trigger] line.value[i],
    ) by {}
    assert forall|i: int| 0 <= i < line.left.len() implies bytes::is_blank(
        #[trigger] line.left[i],
    ) by {
        assert(is_gap(line.left[i]));
    }
    assert forall|i: int| 0 <= i < line.right.len() implies bytes::is_blank(
        #[trigger] line.right[i],
    ) by {
        assert(is_gap(line.right[i]));
    }
    header::law_values_are_exact(fields, line.name, line.left, line.value, line.right);
    assert forall|i: int| 0 <= i < text.len() implies #[trigger] text[i] < 0x80 && text[i] != 0x0d by {
        let n = line.name.len() as int;
        let l = n + 1 + line.left.len();
        let v = l + line.value.len();
        if i < n {
            assert(is_token_character(line.name[i]));
        } else if n < i < l {
            assert(is_gap(line.left[i - n - 1]));
        } else if l <= i < v {
            assert(text[i] == line.value[i - l]);
        } else if i >= v && i > n {
            assert(is_gap(line.right[i - v]));
        }
    }
}

proof fn lemma_names()
    ensures
        "content-length".spec_bytes().len() == 14,
        "transfer-encoding".spec_bytes().len() == 17,
        "content-encoding".spec_bytes().len() == 16,
        "etag".spec_bytes().len() == 4,
        "last-modified".spec_bytes().len() == 13,
{
    reveal_strlit("content-length");
    is_ascii_chars_encode_utf8("content-length"@);
    reveal_strlit("transfer-encoding");
    is_ascii_chars_encode_utf8("transfer-encoding"@);
    reveal_strlit("content-encoding");
    is_ascii_chars_encode_utf8("content-encoding"@);
    reveal_strlit("etag");
    is_ascii_chars_encode_utf8("etag"@);
    reveal_strlit("last-modified");
    is_ascii_chars_encode_utf8("last-modified"@);
}

/// Whether lines may follow the fields that were seen.
spec fn may_follow(fields: header::HeaderFields, lines: Seq<Line>) -> bool {
    &&& merged_length(
        fields.content_length,
        values(lines, "content-length".spec_bytes()),
    ) is Some
    &&& merged(
        fields.transfer_encoding,
        values(lines, "transfer-encoding".spec_bytes()),
    ) is Some
    &&& merged(fields.content_encoding, values(lines, "content-encoding".spec_bytes())) is Some
    &&& merged(fields.etag, values(lines, "etag".spec_bytes())) is Some
    &&& merged(fields.last_modified, values(lines, "last-modified".spec_bytes())) is Some
}

/// The fields after the lines.
spec fn followed(fields: header::HeaderFields, lines: Seq<Line>) -> header::HeaderFields {
    header::HeaderFields {
        content_length: merged_length(
            fields.content_length,
            values(lines, "content-length".spec_bytes()),
        )->0,
        transfer_encoding: merged(
            fields.transfer_encoding,
            values(lines, "transfer-encoding".spec_bytes()),
        )->0,
        content_encoding: merged(
            fields.content_encoding,
            values(lines, "content-encoding".spec_bytes()),
        )->0,
        etag: merged(fields.etag, values(lines, "etag".spec_bytes()))->0,
        last_modified: merged(fields.last_modified, values(lines, "last-modified".spec_bytes()))->0,
    }
}

proof fn lemma_lines_read(fields: header::HeaderFields, lines: Seq<Line>)
    requires
        forall|i: int| 0 <= i < lines.len() ==> is_line(#[trigger] lines[i]),
    ensures
        header::with_lines(fields, written_lines(lines).push(Seq::empty())) is Ok <==> may_follow(
            fields,
            lines,
        ),
        header::with_lines(fields, written_lines(lines).push(Seq::empty())) matches Ok(next) ==> next
            == followed(fields, lines),
    decreases lines.len(),
{
    let texts = written_lines(lines).push(Seq::empty());
    if lines.len() == 0 {
        assert(texts =~= seq![Seq::empty()]);
        assert(texts.drop_first() =~= Seq::<Seq<u8>>::empty());
        assert(header::with_line(fields, texts[0]) == Ok::<header::HeaderFields, HttpError>(fields));
        reveal_with_fuel(header::with_lines, 2);
        assert(followed(fields, lines) =~= fields);
    } else {
        let line = lines[0];
        let tail = lines.drop_first();
        assert(texts.drop_first() =~= written_lines(tail).push(Seq::empty()));
        assert(texts[0] == written_line(line));
        lemma_line_reads(fields, line);
        lemma_names();
        lemma_same_word(line.name, "content-length".spec_bytes());
        lemma_same_word(line.name, "transfer-encoding".spec_bytes());
        lemma_same_word(line.name, "content-encoding".spec_bytes());
        lemma_same_word(line.name, "etag".spec_bytes());
        lemma_same_word(line.name, "last-modified".spec_bytes());
        assert forall|i: int| 0 <= i < tail.len() implies is_line(#[trigger] tail[i]) by {
            assert(is_line(lines[i + 1]));
        }
        if let Ok(next) = header::with_field(fields, line.name, line.value) {
            lemma_lines_read(next, tail);
            if may_follow(next, tail) {
                assert(followed(next, tail) =~= followed(fields, lines));
            }
        }
    }
}

/// Whether no line end stands in a text.
pub open spec fn is_of_one_line(text: Seq<u8>) -> bool {
    forall|i: int| 0 <= i < text.len() - 1 ==> !(#[trigger] text[i] == 0x0d && text[i + 1] == 0x0a)
}

/// Whether a text may be a line: it is not blank, and no line end stands in it.
spec fn is_line_text(text: Seq<u8>) -> bool {
    text.len() > 0 && text[0] != 0x0d && is_of_one_line(text)
}

proof fn lemma_header_ends(texts: Seq<Seq<u8>>, body: Seq<u8>)
    requires
        texts.len() > 0,
        forall|i: int| 0 <= i < texts.len() ==> is_line_text(#[trigger] texts[i]),
    ensures
        bytes::first_index(joined(texts) + seq![0x0du8, 0x0au8] + body, bytes::header_terminator())
            == Some(joined(texts).len() - 2),
        joined(texts).len() >= 2,
    decreases texts.len(),
{
    let crlf = seq![0x0du8, 0x0au8];
    let mark = bytes::header_terminator();
    let text = texts[0];
    let n = text.len() as int;
    let tail = texts.drop_first();
    let all = joined(texts) + crlf + body;
    let rest = joined(tail) + crlf + body;
    assert(is_line_text(text));
    assert(all =~= text + crlf + rest);
    let end = joined(texts).len() - 2;
    if tail.len() == 0 {
        assert(joined(tail) =~= Seq::<u8>::empty());
        assert(all.subrange(n, n + 4) =~= mark);
        assert(end == n);
    } else {
        assert forall|i: int| 0 <= i < tail.len() implies is_line_text(#[trigger] tail[i]) by {
            assert(is_line_text(texts[i + 1]));
        }
        lemma_header_ends(tail, body);
        bytes::lemma_first_index_is_first(rest, mark);
        assert(all.subrange(end, end + 4) =~= rest.subrange(end - n - 2, end - n + 2));
        assert(is_line_text(tail[0]));
        assert(rest[0] == tail[0][0]);
    }
    assert forall|j: int| 0 <= j < end implies !bytes::occurs_at(all, mark, j) by {
        if bytes::occurs_at(all, mark, j) {
            assert(all.subrange(j, j + 4)[0] == mark[0]);
            assert(all.subrange(j, j + 4)[1] == mark[1]);
            assert(all.subrange(j, j + 4)[2] == mark[2]);
            assert(all[j] == 0x0d && all[j + 1] == 0x0a && all[j + 2] == 0x0d);
            if j < n {
                assert(all[j] == text[j]);
                if j + 1 < n {
                    assert(all[j + 1] == text[j + 1]);
                }
            } else if j == n {
                assert(all[j + 2] == rest[0]);
                assert(tail[0][0] != 0x0d);
            } else if j == n + 1 {
                assert(all[j] == 0x0a);
            } else {
                assert(all.subrange(j, j + 4) =~= rest.subrange(j - n - 2, j - n + 2));
                assert(bytes::occurs_at(rest, mark, j - n - 2));
            }
        }
    }
    bytes::lemma_first_index(all, mark, end);
}

proof fn lemma_line_splits(text: Seq<u8>, rest: Seq<u8>)
    requires
        is_of_one_line(text),
    ensures
        bytes::split_on(text + bytes::crlf() + rest, bytes::crlf()) == seq![text]
            + bytes::split_on(rest, bytes::crlf()),
{
    let mark = bytes::crlf();
    let all = text + mark + rest;
    let n = text.len() as int;
    assert(all.subrange(n, n + 2) =~= mark);
    assert forall|j: int| 0 <= j < n implies !bytes::occurs_at(all, mark, j) by {
        if bytes::occurs_at(all, mark, j) {
            assert(all.subrange(j, j + 2)[0] == mark[0]);
            assert(all.subrange(j, j + 2)[1] == mark[1]);
            assert(all[j] == text[j]);
            if j + 1 < n {
                assert(all[j + 1] == text[j + 1]);
            }
        }
    }
    bytes::lemma_first_index(all, mark, n);
    assert(bytes::before(all, n) =~= text);
    assert(bytes::after(all, n + 2) =~= rest);
}

proof fn lemma_header_splits(texts: Seq<Seq<u8>>)
    requires
        forall|i: int| 0 <= i < texts.len() ==> is_line_text(#[trigger] texts[i]),
    ensures
        bytes::split_on(joined(texts), bytes::crlf()) == texts.push(Seq::empty()),
    decreases texts.len(),
{
    if texts.len() == 0 {
        bytes::lemma_split_none(joined(texts), bytes::crlf());
        assert(seq![Seq::<u8>::empty()] =~= texts.push(Seq::empty()));
    } else {
        let tail = texts.drop_first();
        assert(is_line_text(texts[0]));
        assert forall|i: int| 0 <= i < tail.len() implies is_line_text(#[trigger] tail[i]) by {
            assert(is_line_text(texts[i + 1]));
        }
        lemma_header_splits(tail);
        lemma_line_splits(texts[0], joined(tail));
        assert(seq![texts[0]] + tail.push(Seq::empty()) =~= texts.push(Seq::empty()));
    }
}

proof fn lemma_header_is_ascii(texts: Seq<Seq<u8>>)
    requires
        forall|i: int| 0 <= i < texts.len() ==> bytes::is_ascii(#[trigger] texts[i]),
    ensures
        bytes::is_ascii(joined(texts)),
    decreases texts.len(),
{
    if texts.len() > 0 {
        let tail = texts.drop_first();
        let all = joined(texts);
        let n = texts[0].len() as int;
        assert forall|i: int| 0 <= i < tail.len() implies bytes::is_ascii(#[trigger] tail[i]) by {
            assert(bytes::is_ascii(texts[i + 1]));
        }
        lemma_header_is_ascii(tail);
        assert(bytes::is_ascii(texts[0]));
        assert forall|i: int| 0 <= i < all.len() implies #[trigger] all[i] < 0x80 by {
            if i < n {
                assert(texts[0][i] < 0x80);
            } else if i >= n + 2 {
                assert(joined(tail)[i - n - 2] < 0x80);
            }
        }
    }
}

proof fn lemma_status_reads(answer: Answer, status: u16)
    requires
        is_answer(answer, status),
    ensures
        header::status_of(status_line(answer)) == Ok::<u16, HttpError>(status),
        is_line_text(status_line(answer)),
        bytes::is_ascii(status_line(answer)),
{
    reveal_strlit("HTTP/1.1");
    is_ascii_chars_encode_utf8("HTTP/1.1"@);
    reveal_strlit("HTTP/1.0");
    is_ascii_chars_encode_utf8("HTTP/1.0"@);
    let blank = ' ' as u8;
    assert(blank == 0x20);
    let space = seq![blank];
    let version = answer.version;
    let code = answer.code;
    let line = status_line(answer);
    let rest = code + match answer.reason {
        Some(reason) => space + reason,
        None => Seq::empty(),
    };
    number::law_written_numbers_are_read(code, 10, status as nat, 599);
    assert forall|i: int| 0 <= i < code.len() implies 0x30 <= #[trigger] code[i] <= 0x39 by {
        assert(number::is_radix_digit(code[i], 10));
    }
    assert(line =~= version + space + rest);
    assert(bytes::is_free_of(version, 0x20));
    bytes::lemma_split_first(version, space, rest);
    assert(bytes::before(line, version.len() as int) =~= version);
    assert(bytes::after(line, version.len() + 1int) =~= rest);
    match answer.reason {
        Some(reason) => {
            assert(rest =~= code + space + reason);
            bytes::lemma_split_first(code, space, reason);
            assert(bytes::before(rest, 3) =~= code);
        },
        None => {
            assert(rest =~= code);
            bytes::lemma_split_none(code, space);
        },
    }
    assert(header::first_word(rest) == code);
    assert forall|i: int| 0 <= i < line.len() implies #[trigger] line[i] < 0x80 && (line[i] == 0x0d
        ==> i >= 13 && line[i] == answer.reason->0[i - 13]) by {
        if i < 8 {
            assert(line[i] == version[i]);
        } else if 9 <= i < 12 {
            assert(line[i] == code[i - 9]);
        } else if i >= 13 {
            assert(line[i] == answer.reason->0[i - 13]);
        }
    }
    assert forall|i: int| 0 <= i < line.len() - 1 implies !(#[trigger] line[i] == 0x0d && line[i + 1]
        == 0x0a) by {
        if line[i] == 0x0d {
            let reason = answer.reason->0;
            assert(line[i + 1] == reason[i - 12]);
            assert(!(reason[i - 13] == 0x0d && reason[i - 13 + 1] == 0x0a));
        }
    }
}

/// Whether the header lines of a response can be read: none of the five fields
/// that matter comes twice, the length is one, and a body is framed in at most
/// one way, of which the only other is `chunked`.
pub open spec fn is_readable(lines: Seq<Line>) -> bool {
    let lengths = values(lines, "content-length".spec_bytes());
    let encodings = values(lines, "transfer-encoding".spec_bytes());
    &&& lengths.len() + encodings.len() <= 1
    &&& lengths.len() == 1 ==> exists|n: nat| gives_length(lengths[0], n)
    &&& encodings.len() == 1 ==> same_word(encodings[0], "chunked".spec_bytes())
    &&& values(lines, "content-encoding".spec_bytes()).len() <= 1
    &&& values(lines, "etag".spec_bytes()).len() <= 1
    &&& values(lines, "last-modified".spec_bytes()).len() <= 1
}

/// Whether the header lines of a response give this length for its body, or
/// none.
pub open spec fn has_length(lines: Seq<Line>, length: Option<u64>) -> bool {
    let lengths = values(lines, "content-length".spec_bytes());
    match length {
        Some(n) => lengths.len() == 1 && gives_length(lengths[0], n as nat),
        None => lengths.len() == 0,
    }
}

/// The header of a response is found, and says what its lines say.
proof fn lemma_answer_reads(answer: Answer, status: u16)
    requires
        is_answer(answer, status),
    ensures
        ({
            let raw = sent(answer);
            let end = head(answer).len() as int;
            let lines = answer.lines;
            let model = header::header_of(raw, end);
            &&& header::header_length(raw) == Ok::<int, HttpError>(end)
            &&& bytes::after(raw, end) == answer.body
            &&& model is Ok <==> is_readable(lines)
            &&& model matches Ok(found) ==> {
                &&& found.status == status
                &&& has_length(lines, found.content_length)
                &&& found.chunked == (values(lines, "transfer-encoding".spec_bytes()).len() == 1)
                &&& found.content_encoding == only(
                    values(lines, "content-encoding".spec_bytes()),
                )
                &&& found.etag == only(values(lines, "etag".spec_bytes()))
                &&& found.last_modified == only(values(lines, "last-modified".spec_bytes()))
            }
        }),
{
    let raw = sent(answer);
    let end = head(answer).len() as int;
    let lines = answer.lines;
    let texts = seq![status_line(answer)] + written_lines(lines);
    let fields = header::no_fields();
    lemma_status_reads(answer, status);
    assert forall|i: int| 0 <= i < texts.len() implies is_line_text(#[trigger] texts[i])
        && bytes::is_ascii(texts[i]) by {
        if i > 0 {
            assert(is_line(lines[i - 1]));
            lemma_line_reads(fields, lines[i - 1]);
            assert(texts[i][0] != 0x0d);
        }
    }
    assert(raw =~= joined(texts) + seq![0x0du8, 0x0au8] + answer.body);
    lemma_header_ends(texts, answer.body);
    lemma_header_splits(texts);
    lemma_header_is_ascii(texts);
    assert(bytes::after(raw, end) =~= answer.body);
    assert(bytes::before(raw, end - 2) =~= joined(texts));
    let all = texts.push(Seq::empty());
    assert(all.drop_first() =~= written_lines(lines).push(Seq::empty()));
    lemma_lines_read(fields, lines);
    let lengths = values(lines, "content-length".spec_bytes());
    let encodings = values(lines, "transfer-encoding".spec_bytes());
    if lengths.len() == 1 {
        if let Some(n) = length_of(lengths[0]) {
            lemma_length_of(lengths[0], n as nat);
            assert(gives_length(lengths[0], n as nat));
        }
        if exists|n: nat| gives_length(lengths[0], n) {
            let n = choose|n: nat| gives_length(lengths[0], n);
            lemma_length_of(lengths[0], n);
        }
    }
    if encodings.len() == 1 {
        lemma_same_word(encodings[0], "chunked".spec_bytes());
    }
}

/// Whether a response is not compressed: it names no content encoding but
/// `identity`.
pub open spec fn is_plain(lines: Seq<Line>) -> bool {
    let encodings = values(lines, "content-encoding".spec_bytes());
    forall|i: int|
        0 <= i < encodings.len() ==> same_word(#[trigger] encodings[i], "identity".spec_bytes())
}

/// What a response with a status other than 200 is reported as.
pub open spec fn failure(status: u16) -> HttpError {
    if status == 401 || status == 403 {
        HttpError {
            kind: HttpErrorKind::Denied,
            status: Some(status),
            message: "S3 request was denied",
        }
    } else if status == 404 {
        HttpError {
            kind: HttpErrorKind::NotFound,
            status: Some(status),
            message: "S3 object was not found",
        }
    } else if status / 100 == 3 {
        HttpError {
            kind: HttpErrorKind::Unsupported,
            status: Some(status),
            message: "S3 redirect responses are unsupported",
        }
    } else if status / 100 == 5 {
        HttpError {
            kind: HttpErrorKind::Server,
            status: Some(status),
            message: "S3 server returned an error",
        }
    } else {
        HttpError {
            kind: HttpErrorKind::Protocol,
            status: Some(status),
            message: "S3 server returned an unexpected status",
        }
    }
}

/// How a refused signing time is reported.
pub open spec fn clock_skew(status: u16) -> HttpError {
    HttpError {
        kind: HttpErrorKind::ClockSkew,
        status: Some(status),
        message: "S3 rejected the request signing time",
    }
}

/// Whether the body of a response sends a payload in well-formed chunks.
pub open spec fn sends_in_chunks(
    answer: Answer,
    chunks: Seq<chunked::Chunk>,
    last: Seq<u8>,
) -> bool {
    &&& values(answer.lines, "transfer-encoding".spec_bytes()).len() == 1
    &&& chunked::are_sized(chunks)
    &&& chunks.len() < 4096
    &&& last.len() <= 8
    &&& number::writes(last, 16, 0)
    &&& answer.body == chunked::sent(chunks, last)
    &&& sent(answer).len() <= usize::MAX
}

/// Whether the body of a response comes with its length.
pub open spec fn sends_with_length(answer: Answer) -> bool {
    let lengths = values(answer.lines, "content-length".spec_bytes());
    &&& lengths.len() == 1
    &&& gives_length(lengths[0], answer.body.len())
}

/// What is read of a response whose header is well formed.
proof fn lemma_readable(answer: Answer, status: u16, max: int, signed: bool)
    requires
        is_answer(answer, status),
    ensures
        ({
            let raw = sent(answer);
            let end = head(answer).len() as int;
            let found = response::readable(raw, end, max, signed);
            &&& !is_readable(answer.lines) ==> found is Err
            &&& is_readable(answer.lines) && !is_plain(answer.lines) ==> found == Err::<
                (header::HeaderModel, int),
                HttpError,
            >(
                HttpError {
                    kind: HttpErrorKind::Unsupported,
                    status: None,
                    message: "compressed HTTP content encoding is unsupported",
                },
            )
            &&& is_readable(answer.lines) && is_plain(answer.lines) ==> {
                let model = header::header_of(raw, end)->Ok_0;
                let limit = if status == 200 {
                    max
                } else {
                    32768
                };
                if status == 200 || (signed && status / 100 == 4) {
                    if model.content_length matches Some(length) && length > limit {
                        found == Err::<(header::HeaderModel, int), HttpError>(
                            HttpError {
                                kind: HttpErrorKind::Limit,
                                status: None,
                                message: "S3 object exceeds the requested byte limit",
                            },
                        )
                    } else {
                        found == Ok::<(header::HeaderModel, int), HttpError>((model, limit))
                    }
                } else {
                    found == Err::<(header::HeaderModel, int), HttpError>(failure(status))
                }
            }
        }),
{
    lemma_answer_reads(answer, status);
    let encodings = values(answer.lines, "content-encoding".spec_bytes());
    if encodings.len() == 1 {
        lemma_same_word(encodings[0], "identity".spec_bytes());
        assert(is_plain(answer.lines) <==> same_word(encodings[0], "identity".spec_bytes()));
    }
}

/// An object that is sent with its length is returned, and exactly as it was
/// sent: the status is 200, the length is right and within the limit, and of the
/// header only the five fields that matter are looked at, which come once at
/// most. Lines of other names, their number, the order and case of names and the
/// blanks around values do not matter. Anything else that is not in chunks is
/// refused.
pub proof fn law_objects_come_with_their_length(
    answer: Answer,
    status: u16,
    max: int,
    signed: bool,
    object: Seq<u8>,
)
    requires
        is_answer(answer, status),
        values(answer.lines, "transfer-encoding".spec_bytes()).len() == 0,
        0 <= max <= usize::MAX,
    ensures
        response::object_of(sent(answer), max, signed) == Ok::<Seq<u8>, HttpError>(object) <==> {
            &&& status == 200
            &&& is_readable(answer.lines)
            &&& is_plain(answer.lines)
            &&& sends_with_length(answer)
            &&& answer.body.len() <= max
            &&& object == answer.body
        },
{
    lemma_answer_reads(answer, status);
    lemma_readable(answer, status, max, signed);
    let lengths = values(answer.lines, "content-length".spec_bytes());
    if is_readable(answer.lines) {
        let model = header::header_of(sent(answer), head(answer).len() as int)->Ok_0;
        if let Some(length) = model.content_length {
            lemma_length_of(lengths[0], length as nat);
            lemma_length_of(lengths[0], answer.body.len());
        }
    }
}

/// An object that is sent in chunks is returned, exactly as it was sent, under
/// the same conditions, where what the chunks hold is within the limit.
pub proof fn law_objects_come_in_chunks(
    answer: Answer,
    status: u16,
    chunks: Seq<chunked::Chunk>,
    last: Seq<u8>,
    max: int,
    signed: bool,
    object: Seq<u8>,
)
    requires
        is_answer(answer, status),
        sends_in_chunks(answer, chunks, last),
        0 <= max <= usize::MAX,
    ensures
        response::object_of(sent(answer), max, signed) == Ok::<Seq<u8>, HttpError>(object) <==> {
            &&& status == 200
            &&& is_readable(answer.lines)
            &&& is_plain(answer.lines)
            &&& chunked::payload(chunks).len() <= max
            &&& object == chunked::payload(chunks)
        },
{
    lemma_answer_reads(answer, status);
    lemma_readable(answer, status, max, signed);
    chunked::law_sized_chunks_decode(chunks, last, max);
}

/// A header that repeats a field that matters, gives no length where it names
/// one, frames the body twice or in an unknown way, or names a compression, is
/// refused, whatever follows it.
pub proof fn law_unreadable_headers_are_refused(
    answer: Answer,
    status: u16,
    max: int,
    signed: bool,
)
    requires
        is_answer(answer, status),
    ensures
        !is_readable(answer.lines) ==> {
            &&& response::object_of(sent(answer), max, signed) is Err
            &&& response::next_read(sent(answer), max, signed) is Err
            &&& response::metadata_of(sent(answer)) is Err
            &&& response::next_head_read(sent(answer)) is Err
        },
        !is_plain(answer.lines) ==> {
            &&& response::object_of(sent(answer), max, signed) is Err
            &&& response::next_read(sent(answer), max, signed) is Err
        },
{
    lemma_answer_reads(answer, status);
    lemma_readable(answer, status, max, signed);
    let raw = sent(answer);
    bytes::lemma_first_index_none(raw, bytes::header_terminator());
    bytes::lemma_first_index_is_first(raw, bytes::header_terminator());
}

/// A failed request is reported by its status alone, as soon as the header has
/// come; only the body of a signed request that was refused by a status from
/// 400 to 499 is looked at.
pub proof fn law_failures_are_told_by_their_status(
    answer: Answer,
    status: u16,
    max: int,
    signed: bool,
)
    requires
        is_answer(answer, status),
        is_readable(answer.lines),
        status != 200,
    ensures
        is_plain(answer.lines) && !(signed && 400 <= status <= 499) ==> {
            &&& response::object_of(sent(answer), max, signed) == Err::<Seq<u8>, HttpError>(
                failure(status),
            )
            &&& response::next_read(sent(answer), max, signed) == Err::<Option<int>, HttpError>(
                failure(status),
            )
        },
        answer.body.len() == 0 && values(answer.lines, "transfer-encoding".spec_bytes()).len() == 0
            ==> {
            &&& response::metadata_of(sent(answer)) == Err::<response::MetadataModel, HttpError>(
                failure(status),
            )
            &&& response::next_head_read(sent(answer)) == Err::<Option<int>, HttpError>(
                failure(status),
            )
        },
{
    lemma_answer_reads(answer, status);
    lemma_readable(answer, status, max, signed);
    let raw = sent(answer);
    assert(raw.len() == head(answer).len() + answer.body.len());
    bytes::lemma_first_index_none(raw, bytes::header_terminator());
    bytes::lemma_first_index_is_first(raw, bytes::header_terminator());
}

/// The metadata of an object is what its header says: the length, the entity tag
/// and the time of its last change, each where its line is there, and exactly as
/// it was sent. It is returned with status 200 alone, and neither with a body nor
/// with chunks.
pub proof fn law_metadata_is_what_the_header_says(
    answer: Answer,
    status: u16,
    metadata: response::MetadataModel,
)
    requires
        is_answer(answer, status),
    ensures
        response::metadata_of(sent(answer)) == Ok::<response::MetadataModel, HttpError>(metadata)
            <==> {
            &&& status == 200
            &&& answer.body.len() == 0
            &&& is_readable(answer.lines)
            &&& values(answer.lines, "transfer-encoding".spec_bytes()).len() == 0
            &&& has_length(answer.lines, metadata.content_length)
            &&& metadata.etag == only(values(answer.lines, "etag".spec_bytes()))
            &&& metadata.last_modified == only(values(answer.lines, "last-modified".spec_bytes()))
        },
{
    lemma_answer_reads(answer, status);
    let lengths = values(answer.lines, "content-length".spec_bytes());
    assert(sent(answer).len() == head(answer).len() + answer.body.len());
    if is_readable(answer.lines) {
        let model = header::header_of(sent(answer), head(answer).len() as int)->Ok_0;
        if let Some(length) = model.content_length {
            lemma_length_of(lengths[0], length as nat);
            if let Some(other) = metadata.content_length {
                lemma_length_of(lengths[0], other as nat);
            }
        }
    }
}

/// A signed request whose signing time was refused is reported as such, with its
/// status: the error document says so, and comes with its length, in chunks, or
/// without either. A document with another code is reported by the status alone.
pub proof fn law_refused_signing_times_are_told(
    answer: Answer,
    status: u16,
    chunks: Seq<chunked::Chunk>,
    last: Seq<u8>,
    document: response::ErrorDocument,
    max: int,
)
    requires
        is_answer(answer, status),
        400 <= status <= 499,
        is_readable(answer.lines),
        is_plain(answer.lines),
        response::is_error_document(document),
        ({
            let payload = encode_utf8(response::written_error(document));
            &&& payload.len() <= 32768
            &&& if values(answer.lines, "transfer-encoding".spec_bytes()).len() == 1 {
                sends_in_chunks(answer, chunks, last) && chunked::payload(chunks) == payload
            } else {
                &&& answer.body == payload
                &&& values(answer.lines, "content-length".spec_bytes()).len() == 1
                    ==> sends_with_length(answer)
            }
        }),
    ensures
        response::object_of(sent(answer), max, true) == Err::<Seq<u8>, HttpError>(
            if document.code == "RequestTimeTooSkewed"@ || document.code == "RequestExpired"@ {
                clock_skew(status)
            } else {
                failure(status)
            },
        ),
{
    lemma_answer_reads(answer, status);
    lemma_readable(answer, status, max, true);
    response::law_error_documents_tell_clock_skew(document);
    let lengths = values(answer.lines, "content-length".spec_bytes());
    let model = header::header_of(sent(answer), head(answer).len() as int)->Ok_0;
    if let Some(length) = model.content_length {
        lemma_length_of(lengths[0], length as nat);
        lemma_length_of(lengths[0], answer.body.len());
    }
    if values(answer.lines, "transfer-encoding".spec_bytes()).len() == 1 {
        chunked::law_sized_chunks_decode(chunks, last, 32768);
    }
}

/// A response is read to its end: as long as its header is incomplete the rest of
/// the greatest header is asked for, behind it what is missing of a body with a
/// length, or some of what is missing of one in chunks, and nothing when all of
/// it has come. This goes for objects and for the bodies of signed requests that
/// were refused.
pub proof fn law_responses_are_read_to_their_end(
    answer: Answer,
    status: u16,
    chunks: Seq<chunked::Chunk>,
    last: Seq<u8>,
    max: int,
    signed: bool,
    k: int,
)
    requires
        is_answer(answer, status),
        status == 200 || (signed && 400 <= status <= 499),
        is_readable(answer.lines),
        is_plain(answer.lines),
        0 <= max <= usize::MAX,
        0 <= k <= sent(answer).len() <= usize::MAX,
        ({
            let limit = if status == 200 {
                max
            } else {
                32768
            };
            if values(answer.lines, "transfer-encoding".spec_bytes()).len() == 1 {
                sends_in_chunks(answer, chunks, last) && chunked::payload(chunks).len() <= limit
            } else {
                sends_with_length(answer) && answer.body.len() <= limit
            }
        }),
    ensures
        ({
            let all = sent(answer);
            let next = response::next_read(bytes::before(all, k), max, signed);
            if k == all.len() {
                next == Ok::<Option<int>, HttpError>(None)
            } else if k < head(answer).len() {
                next == Ok::<Option<int>, HttpError>(Some(32768 - k))
            } else if values(answer.lines, "transfer-encoding".spec_bytes()).len() == 1 {
                next matches Ok(Some(n)) && 0 < n <= all.len() - k
            } else {
                next == Ok::<Option<int>, HttpError>(Some(all.len() - k))
            }
        }),
{
    lemma_answer_reads(answer, status);
    lemma_readable(answer, status, max, signed);
    let raw = sent(answer);
    let end = head(answer).len() as int;
    let limit = if status == 200 {
        max
    } else {
        32768
    };
    let lengths = values(answer.lines, "content-length".spec_bytes());
    let model = header::header_of(raw, end)->Ok_0;
    if let Some(length) = model.content_length {
        lemma_length_of(lengths[0], length as nat);
        lemma_length_of(lengths[0], answer.body.len());
    }
    if values(answer.lines, "transfer-encoding".spec_bytes()).len() == 1 {
        chunked::law_sized_chunks_decode(chunks, last, limit);
    }
    response::lemma_reading_goes_on(raw, end, max, signed, k);
}

/// The metadata of an object is read up to the end of its header, and no further.
pub proof fn law_metadata_is_read_to_the_end_of_the_header(answer: Answer, k: int)
    requires
        is_answer(answer, 200),
        is_readable(answer.lines),
        values(answer.lines, "transfer-encoding".spec_bytes()).len() == 0,
        answer.body.len() == 0,
        0 <= k <= sent(answer).len(),
    ensures
        response::next_head_read(bytes::before(sent(answer), k)) == Ok::<Option<int>, HttpError>(
            if k < sent(answer).len() {
                Some(32768 - k)
            } else {
                None
            },
        ),
{
    lemma_answer_reads(answer, 200);
    let raw = sent(answer);
    assert(raw.len() == head(answer).len());
    if k < raw.len() {
        response::law_metadata_needs_only_the_header(raw, k);
    } else {
        assert(bytes::before(raw, k) =~= raw);
        bytes::lemma_first_index_none(raw, bytes::header_terminator());
    }
}

proof fn lemma_start_is_cut(s: Seq<u8>, p: spec_fn(u8) -> bool)
    ensures
        ({
            let cut = bytes::trim_start(s, p);
            let k = s.len() - cut.len();
            &&& k >= 0
            &&& cut == bytes::after(s, k)
            &&& bytes::all(bytes::before(s, k), p)
            &&& cut.len() > 0 ==> !p(cut[0])
        }),
    decreases s.len(),
{
    if s.len() > 0 && p(s[0]) {
        let rest = bytes::after(s, 1);
        lemma_start_is_cut(rest, p);
        let cut = bytes::trim_start(s, p);
        let k = s.len() - cut.len();
        assert(bytes::after(rest, k - 1) =~= bytes::after(s, k));
        assert forall|i: int| 0 <= i < k implies p(#[trigger] bytes::before(s, k)[i]) by {
            if i > 0 {
                assert(p(bytes::before(rest, k - 1)[i - 1]));
            }
        }
    } else {
        assert(bytes::after(s, 0) =~= s);
    }
}

proof fn lemma_end_is_cut(s: Seq<u8>, p: spec_fn(u8) -> bool)
    ensures
        bytes::trim_end(s, p).len() > 0 ==> !p(bytes::trim_end(s, p).last()),
    decreases s.len(),
{
    if s.len() > 0 && p(s.last()) {
        lemma_end_is_cut(s.drop_last(), p);
    }
}

/// A line that is read is a well-formed one.
proof fn lemma_read_line_is_written(fields: header::HeaderFields, text: Seq<u8>) -> (line: Line)
    requires
        text.len() > 0,
        bytes::is_ascii(text),
        header::with_line(fields, text) is Ok,
    ensures
        is_line(line),
        written_line(line) == text,
{
    let colon = ':' as u8;
    assert(colon == 0x3a);
    bytes::lemma_first_byte(text, colon);
    let n = bytes::first_index(text, seq![colon])->0;
    let name = bytes::before(text, n);
    let rest = bytes::after(text, n + 1);
    let p = |b: u8| bytes::is_blank(b);
    let right_part = bytes::trim_start(rest, p);
    let value = bytes::trim_blanks(rest);
    lemma_start_is_cut(rest, p);
    lemma_end_is_cut(right_part, p);
    bytes::lemma_trim_end_cuts(right_part, p);
    let left = bytes::before(rest, rest.len() - right_part.len());
    let right = bytes::after(right_part, value.len() as int);
    let line = Line { name, left, value, right };
    assert(rest =~= left + value + right);
    assert(text =~= written_line(line));
    assert forall|i: int| 0 <= i < name.len() implies is_token_character(#[trigger] name[i]) by {
        assert(header::is_token_byte(name[i]));
    }
    assert forall|i: int| 0 <= i < left.len() implies is_gap(#[trigger] left[i]) by {
        assert(p(left[i]));
    }
    assert forall|i: int| 0 <= i < right.len() implies is_gap(#[trigger] right[i]) by {
        assert(p(right[i]));
    }
    assert forall|i: int| 0 <= i < value.len() implies (0x20 <= #[trigger] value[i] <= 0x7e
        || value[i] == 0x09) by {
        assert(header::is_value_byte(value[i]));
        assert(value[i] == text[n + 1 + left.len() + i]);
    }
    if value.len() > 0 {
        assert(value[0] == right_part[0]);
    }
    line
}

proof fn lemma_read_lines_are_written(fields: header::HeaderFields, texts: Seq<Seq<u8>>) -> (lines:
    Seq<Line>)
    requires
        forall|i: int|
            0 <= i < texts.len() ==> (#[trigger] texts[i]).len() > 0 && bytes::is_ascii(texts[i]),
        header::with_lines(fields, texts.push(Seq::empty())) is Ok,
    ensures
        forall|i: int| 0 <= i < lines.len() ==> is_line(#[trigger] lines[i]),
        written_lines(lines) == texts,
    decreases texts.len(),
{
    if texts.len() == 0 {
        assert(written_lines(Seq::empty()) =~= texts);
        Seq::empty()
    } else {
        let all = texts.push(Seq::empty());
        let tail = texts.drop_first();
        assert(all[0] == texts[0]);
        assert(all.drop_first() =~= tail.push(Seq::empty()));
        assert forall|i: int| 0 <= i < tail.len() implies (#[trigger] tail[i]).len() > 0
            && bytes::is_ascii(tail[i]) by {
            assert(texts[i + 1].len() > 0);
        }
        let line = lemma_read_line_is_written(fields, texts[0]);
        let next = header::with_line(fields, texts[0])->Ok_0;
        let rest = lemma_read_lines_are_written(next, tail);
        let lines = seq![line] + rest;
        assert forall|i: int| 0 <= i < lines.len() implies is_line(#[trigger] lines[i]) by {
            if i > 0 {
                assert(is_line(rest[i - 1]));
            }
        }
        assert forall|i: int| 0 <= i < texts.len() implies written_lines(lines)[i]
            == #[trigger] texts[i] by {
            if i > 0 {
                assert(written_lines(rest)[i - 1] == tail[i - 1]);
            }
        }
        assert(written_lines(lines) =~= texts);
        lines
    }
}

/// A header splits into lines that it is joined of.
proof fn lemma_split_lines_are_joined(s: Seq<u8>) -> (texts: Seq<Seq<u8>>)
    requires
        s.len() >= 2,
        s[s.len() - 2] == 0x0d,
        s[s.len() - 1] == 0x0a,
    ensures
        texts.len() > 0,
        bytes::split_on(s, bytes::crlf()) == texts.push(Seq::empty()),
        s == joined(texts),
        forall|i: int| 0 <= i < texts.len() ==> is_of_one_line(#[trigger] texts[i]),
    decreases s.len(),
{
    let mark = bytes::crlf();
    let m = s.len() - 2;
    assert(s.subrange(m, m + 2) =~= mark);
    bytes::lemma_first_index_exists(s, mark, m);
    let n = bytes::first_index(s, mark)->0;
    let text = bytes::before(s, n);
    let rest = bytes::after(s, n + 2);
    assert(s.subrange(n, n + 2) == mark);
    assert(s =~= text + s.subrange(n, n + 2) + rest);
    assert forall|i: int| 0 <= i < text.len() - 1 implies !(#[trigger] text[i] == 0x0d && text[i + 1]
        == 0x0a) by {
        if text[i] == 0x0d && text[i + 1] == 0x0a {
            assert(s.subrange(i, i + 2) =~= mark);
            assert(bytes::occurs_at(s, mark, i));
        }
    }
    if n == m {
        let texts = seq![text];
        assert(rest =~= Seq::<u8>::empty());
        bytes::lemma_split_none(rest, mark);
        assert(joined(texts.drop_first()) =~= Seq::<u8>::empty());
        assert(s =~= joined(texts));
        assert(seq![text] + seq![rest] =~= texts.push(Seq::empty()));
        texts
    } else {
        assert(n + 1 != m) by {
            assert(s.subrange(n, n + 2)[1] == 0x0a);
        }
        let tail = lemma_split_lines_are_joined(rest);
        let texts = seq![text] + tail;
        assert(texts.drop_first() =~= tail);
        assert(seq![text] + tail.push(Seq::empty()) =~= texts.push(Seq::empty()));
        assert forall|i: int| 0 <= i < texts.len() implies is_of_one_line(#[trigger] texts[i]) by {
            if i > 0 {
                assert(is_of_one_line(tail[i - 1]));
            }
        }
        texts
    }
}

/// No line behind the first is blank where the first blank line ends the header.
proof fn lemma_lines_are_not_blank(texts: Seq<Seq<u8>>, body: Seq<u8>)
    requires
        texts.len() > 0,
        forall|j: int|
            0 <= j < joined(texts).len() - 2 ==> !bytes::occurs_at(
                joined(texts) + bytes::crlf() + body,
                bytes::header_terminator(),
                j,
            ),
    ensures
        forall|i: int| 1 <= i < texts.len() ==> (#[trigger] texts[i]).len() > 0,
    decreases texts.len(),
{
    let crlf = bytes::crlf();
    let mark = bytes::header_terminator();
    let tail = texts.drop_first();
    let text = texts[0];
    let n = text.len() as int;
    let all = joined(texts) + crlf + body;
    let rest = joined(tail) + crlf + body;
    assert(all =~= text + crlf + rest);
    if tail.len() > 0 {
        assert(joined(tail) == tail[0] + crlf + joined(tail.drop_first()));
        if tail[0].len() == 0 {
            assert(all.subrange(n, n + 4) =~= mark);
            assert(bytes::occurs_at(all, mark, n));
        }
        assert forall|j: int| 0 <= j < joined(tail).len() - 2 implies !bytes::occurs_at(
            rest,
            mark,
            j,
        ) by {
            if bytes::occurs_at(rest, mark, j) {
                assert(all.subrange(j + n + 2, j + n + 6) =~= rest.subrange(j, j + 4));
                assert(bytes::occurs_at(all, mark, j + n + 2));
            }
        }
        lemma_lines_are_not_blank(tail, body);
        assert forall|i: int| 1 <= i < texts.len() implies (#[trigger] texts[i]).len() > 0 by {
            if i > 1 {
                assert(tail[i - 1].len() > 0);
            }
        }
    }
}

proof fn lemma_lines_are_ascii(texts: Seq<Seq<u8>>)
    requires
        bytes::is_ascii(joined(texts)),
    ensures
        forall|i: int| 0 <= i < texts.len() ==> bytes::is_ascii(#[trigger] texts[i]),
    decreases texts.len(),
{
    if texts.len() > 0 {
        let tail = texts.drop_first();
        let text = texts[0];
        let all = joined(texts);
        let n = text.len() as int;
        let rest = joined(tail);
        assert forall|i: int| 0 <= i < rest.len() implies #[trigger] rest[i] < 0x80 by {
            assert(rest[i] == all[n + 2 + i]);
        }
        lemma_lines_are_ascii(tail);
        assert forall|i: int| 0 <= i < text.len() implies #[trigger] text[i] < 0x80 by {
            assert(text[i] == all[i]);
        }
        assert forall|i: int| 0 <= i < texts.len() implies bytes::is_ascii(#[trigger] texts[i]) by {
            if i > 0 {
                assert(bytes::is_ascii(tail[i - 1]));
            }
        }
    }
}

/// A status line that is read is a well-formed one.
proof fn lemma_read_status_is_written(line: Seq<u8>) -> (r: (Seq<u8>, Seq<u8>, Option<Seq<u8>>))
    requires
        header::status_of(line) is Ok,
        bytes::is_ascii(line),
        is_of_one_line(line),
    ensures
        ({
            let answer = Answer {
                version: r.0,
                code: r.1,
                reason: r.2,
                lines: Seq::empty(),
                body: Seq::empty(),
            };
            let status = header::status_of(line)->Ok_0;
            &&& status_line(answer) == line
            &&& r.0 == "HTTP/1.1".spec_bytes() || r.0 == "HTTP/1.0".spec_bytes()
            &&& r.1.len() == 3
            &&& number::writes(r.1, 10, status as nat)
            &&& 100 <= status <= 599
            &&& r.2 matches Some(reason) ==> is_of_one_line(reason) && forall|i: int|
                0 <= i < reason.len() ==> #[trigger] reason[i] < 0x80
        }),
{
    let blank = ' ' as u8;
    assert(blank == 0x20);
    let version = header::first_word(line);
    bytes::lemma_first_byte(line, blank);
    let n = version.len() as int;
    let rest = bytes::after(line, n + 1);
    let code = header::first_word(rest);
    bytes::lemma_first_byte(rest, blank);
    let status = header::status_of(line)->Ok_0;
    number::law_written_numbers_are_read(code, 10, number::parsed(code, 10, 599)->0, 599);
    assert(line =~= version + seq![blank] + rest);
    if bytes::first_index(rest, seq![blank]) is Some {
        let reason = bytes::after(rest, 4);
        assert(rest =~= code + (seq![blank] + reason));
        assert(line =~= version + seq![blank] + code + (seq![blank] + reason));
        assert forall|i: int| 0 <= i < reason.len() implies #[trigger] reason[i] < 0x80 by {
            assert(reason[i] == line[i + n + 5]);
        }
        assert forall|i: int| 0 <= i < reason.len() - 1 implies !(#[trigger] reason[i] == 0x0d
            && reason[i + 1] == 0x0a) by {
            assert(reason[i] == line[i + n + 5]);
            assert(reason[i + 1] == line[i + n + 5 + 1]);
        }
        (version, code, Some(reason))
    } else {
        assert(rest == code);
        assert(line =~= version + seq![blank] + code + Seq::<u8>::empty());
        (version, code, None)
    }
}

/// Only well-formed responses are read: a header that is read is a status line,
/// header lines and a blank line, all of them well formed, and what follows is the
/// body.
pub proof fn law_only_well_formed_headers_are_read(raw: Seq<u8>, end: int)
    requires
        header::header_length(raw) == Ok::<int, HttpError>(end),
        header::header_of(raw, end) is Ok,
    ensures
        exists|answer: Answer|
            {
                &&& raw == #[trigger] sent(answer)
                &&& head(answer).len() == end
                &&& is_answer(answer, header::header_of(raw, end)->Ok_0.status)
                &&& is_readable(answer.lines)
            },
{
    let mark = bytes::header_terminator();
    let crlf = bytes::crlf();
    bytes::lemma_first_index_is_first(raw, mark);
    let m = end - 4;
    let top = bytes::before(raw, end - 2);
    let body = bytes::after(raw, end);
    assert(raw.subrange(m, m + 4) == mark);
    assert(raw.subrange(m, m + 4)[0] == 0x0d && raw.subrange(m, m + 4)[1] == 0x0a);
    assert(raw.subrange(m, m + 4)[2] == 0x0d && raw.subrange(m, m + 4)[3] == 0x0a);
    let texts = lemma_split_lines_are_joined(top);
    assert(raw =~= top + crlf + body);
    lemma_lines_are_not_blank(texts, body);
    let all = texts.push(Seq::empty());
    let tail = texts.drop_first();
    assert(all[0] == texts[0]);
    assert(all.drop_first() =~= tail.push(Seq::empty()));
    lemma_lines_are_ascii(texts);
    assert forall|i: int| 0 <= i < tail.len() implies (#[trigger] tail[i]).len() > 0
        && bytes::is_ascii(tail[i]) by {
        assert(texts[i + 1].len() > 0);
        assert(bytes::is_ascii(texts[i + 1]));
    }
    let status = header::status_of(texts[0])->Ok_0;
    assert(is_of_one_line(texts[0]));
    assert(bytes::is_ascii(texts[0]));
    let (version, code, reason) = lemma_read_status_is_written(texts[0]);
    let lines = lemma_read_lines_are_written(header::no_fields(), tail);
    let answer = Answer { version, code, reason, lines, body };
    assert(seq![status_line(answer)] + written_lines(lines) =~= texts);
    assert(raw =~= sent(answer));
    assert(head(answer).len() == end);
    assert(is_answer(answer, status));
    lemma_answer_reads(answer, status);
}

/// Every object that is returned was sent in a well-formed response with status
/// 200, framed in exactly one way, and not compressed.
pub proof fn law_only_well_formed_responses_are_accepted(raw: Seq<u8>, max: int, signed: bool)
    requires
        response::object_of(raw, max, signed) is Ok,
        0 <= max,
    ensures
        exists|answer: Answer|
            {
                &&& raw == #[trigger] sent(answer)
                &&& is_answer(answer, 200)
                &&& is_readable(answer.lines)
                &&& is_plain(answer.lines)
                &&& values(answer.lines, "content-length".spec_bytes()).len() + values(
                    answer.lines,
                    "transfer-encoding".spec_bytes(),
                ).len() == 1
            },
{
    let end = header::header_length(raw)->Ok_0;
    law_only_well_formed_headers_are_read(raw, end);
    let answer = choose|answer: Answer|
        {
            &&& raw == #[trigger] sent(answer)
            &&& head(answer).len() == end
            &&& is_answer(answer, header::header_of(raw, end)->Ok_0.status)
            &&& is_readable(answer.lines)
        };
    let status = header::header_of(raw, end)->Ok_0.status;
    response::law_objects_are_exact_and_bounded(raw, max, signed);
    law_unreadable_headers_are_refused(answer, status, max, signed);
    response::law_only_framed_responses_are_accepted(raw, max, signed);
    lemma_answer_reads(answer, status);
    assert(raw == sent(answer));
}

/// All metadata that is returned came in a well-formed header with status 200,
/// and nothing followed it.
pub proof fn law_only_well_formed_metadata_is_accepted(raw: Seq<u8>)
    requires
        response::metadata_of(raw) is Ok,
    ensures
        exists|answer: Answer|
            {
                &&& raw == #[trigger] sent(answer)
                &&& is_answer(answer, 200)
                &&& is_readable(answer.lines)
                &&& answer.body.len() == 0
            },
{
    let end = header::header_length(raw)->Ok_0;
    law_only_well_formed_headers_are_read(raw, end);
    let answer = choose|answer: Answer|
        {
            &&& raw == #[trigger] sent(answer)
            &&& head(answer).len() == end
            &&& is_answer(answer, header::header_of(raw, end)->Ok_0.status)
            &&& is_readable(answer.lines)
        };
    law_metadata_is_what_the_header_says(
        answer,
        header::header_of(raw, end)->Ok_0.status,
        response::metadata_of(raw)->Ok_0,
    );
    assert(raw == sent(answer));
}

/// A header that has not come yet is asked for, up to 32768 bytes, and no longer.
pub proof fn law_headers_are_bounded(raw: Seq<u8>, max: int, signed: bool)
    requires
        !bytes::contains(raw, seq![0x0du8, 0x0au8, 0x0du8, 0x0au8]),
    ensures
        raw.len() < 32768 ==> response::next_read(raw, max, signed) == Ok::<Option<int>, HttpError>(
            Some(32768 - raw.len()),
        ) && response::next_head_read(raw) == Ok::<Option<int>, HttpError>(
            Some(32768 - raw.len()),
        ),
        raw.len() >= 32768 ==> {
            &&& response::next_read(raw, max, signed) matches Err(error)
            &&& error.kind == HttpErrorKind::Limit
        },
        raw.len() >= 32768 ==> {
            &&& response::next_head_read(raw) matches Err(error)
            &&& error.kind == HttpErrorKind::Limit
        },
        response::object_of(raw, max, signed) matches Err(error) && error.kind
            == HttpErrorKind::Protocol,
        response::metadata_of(raw) matches Err(error) && error.kind == HttpErrorKind::Protocol,
{
    bytes::lemma_first_index_none(raw, bytes::header_terminator());
}

/// What a body is read and taken for is known from its length. One that is
/// announced beyond the limit is refused at once, however much of it has come;
/// one within it is read to its announced end, and refused where it is shorter
/// or longer; one without framing is read until it ends or goes beyond its limit,
/// and never taken for an object.
pub proof fn law_bodies_are_bounded(
    answer: Answer,
    status: u16,
    length: nat,
    max: int,
    signed: bool,
)
    requires
        is_answer(answer, status),
        status == 200 || (signed && 400 <= status <= 499),
        is_readable(answer.lines),
        is_plain(answer.lines),
        values(answer.lines, "transfer-encoding".spec_bytes()).len() == 0,
        0 <= max,
        max + 32768 <= usize::MAX,
    ensures
        ({
            let limit = if status == 200 {
                max
            } else {
                32768
            };
            let lengths = values(answer.lines, "content-length".spec_bytes());
            let body = answer.body;
            let read = response::next_read(sent(answer), max, signed);
            let object = response::object_of(sent(answer), max, signed);
            if lengths.len() == 0 {
                &&& body.len() <= limit ==> read == Ok::<Option<int>, HttpError>(
                    Some(limit - body.len() + 1),
                )
                &&& body.len() > limit ==> (read matches Err(error) && error.kind
                    == HttpErrorKind::Limit && error.status is None)
                &&& body.len() > limit ==> (object matches Err(error) && error.kind
                    == HttpErrorKind::Limit && error.status is None)
                &&& body.len() <= limit && status == 200 ==> (object matches Err(error)
                    && error.kind == HttpErrorKind::Protocol && error.status is None)
            } else {
                gives_length(lengths[0], length) ==> {
                    &&& length > limit ==> (read matches Err(error) && error.kind
                        == HttpErrorKind::Limit && error.status is None)
                    &&& length > limit ==> (object matches Err(error) && error.kind
                        == HttpErrorKind::Limit && error.status is None)
                    &&& body.len() < length <= limit ==> read == Ok::<Option<int>, HttpError>(
                        Some(length - body.len()),
                    )
                    &&& length <= limit && length <= body.len() ==> read == Ok::<
                        Option<int>,
                        HttpError,
                    >(None)
                    &&& length <= limit && length != body.len() ==> (object matches Err(error)
                        && error.kind == HttpErrorKind::Protocol && error.status is None)
                }
            }
        }),
{
    lemma_answer_reads(answer, status);
    lemma_readable(answer, status, max, signed);
    bytes::lemma_first_index_is_first(sent(answer), bytes::header_terminator());
    bytes::lemma_first_index_none(sent(answer), bytes::header_terminator());
    let lengths = values(answer.lines, "content-length".spec_bytes());
    let model = header::header_of(sent(answer), head(answer).len() as int)->Ok_0;
    assert(sent(answer).len() == head(answer).len() + answer.body.len());
    if lengths.len() == 1 && gives_length(lengths[0], length) {
        lemma_length_of(lengths[0], length);
        if let Some(n) = model.content_length {
            lemma_length_of(lengths[0], n as nat);
        }
    }
}

/// A compressed response is refused as unsupported, and metadata with a body, or
/// with the framing of one, as malformed.
pub proof fn law_refusals_tell_why(answer: Answer, status: u16, max: int, signed: bool)
    requires
        is_answer(answer, status),
    ensures
        is_readable(answer.lines) && !is_plain(answer.lines) ==> {
            &&& response::object_of(sent(answer), max, signed) matches Err(error)
            &&& error.kind == HttpErrorKind::Unsupported && error.status is None
        },
        is_readable(answer.lines) && answer.body.len() > 0 ==> {
            &&& response::metadata_of(sent(answer)) matches Err(error)
            &&& error.kind == HttpErrorKind::Protocol && error.status is None
        },
        is_readable(answer.lines) && answer.body.len() == 0 && values(
            answer.lines,
            "transfer-encoding".spec_bytes(),
        ).len() > 0 ==> {
            &&& response::metadata_of(sent(answer)) matches Err(error)
            &&& error.kind == HttpErrorKind::Protocol && error.status is None
        },
{
    lemma_answer_reads(answer, status);
    lemma_readable(answer, status, max, signed);
    assert(sent(answer).len() == head(answer).len() + answer.body.len());
}

proof fn lemma_line_errors(fields: header::HeaderFields, lines: Seq<Seq<u8>>)
    ensures
        header::with_lines(fields, lines) matches Err(error) ==> error.kind
            == HttpErrorKind::Protocol && error.status is None,
    decreases lines.len(),
{
    if lines.len() > 0 {
        if let Ok(next) = header::with_line(fields, lines[0]) {
            lemma_line_errors(next, lines.drop_first());
        }
    }
}

/// A header that frames its body in an unknown way, and does so only once and has
/// no other fault, is refused as unsupported; every other header that cannot be
/// read is refused as malformed.
pub proof fn law_unreadable_headers_tell_why(answer: Answer, status: u16, max: int, signed: bool)
    requires
        is_answer(answer, status),
        !is_readable(answer.lines),
    ensures
        ({
            let lines = answer.lines;
            let is_unknown = values(lines, "content-length".spec_bytes()).len() == 0 && values(
                lines,
                "transfer-encoding".spec_bytes(),
            ).len() == 1 && values(lines, "content-encoding".spec_bytes()).len() <= 1 && values(
                lines,
                "etag".spec_bytes(),
            ).len() <= 1 && values(lines, "last-modified".spec_bytes()).len() <= 1;
            let kind = if is_unknown {
                HttpErrorKind::Unsupported
            } else {
                HttpErrorKind::Protocol
            };
            &&& response::object_of(sent(answer), max, signed) matches Err(error) && error.kind
                == kind && error.status is None
            &&& response::metadata_of(sent(answer)) matches Err(error) && error.kind == kind
                && error.status is None
        }),
{
    lemma_answer_reads(answer, status);
    lemma_readable(answer, status, max, signed);
    let raw = sent(answer);
    let end = head(answer).len() as int;
    let lines = answer.lines;
    let texts = seq![status_line(answer)] + written_lines(lines);
    let fields = header::no_fields();
    lemma_status_reads(answer, status);
    assert forall|i: int| 0 <= i < texts.len() implies is_line_text(#[trigger] texts[i])
        && bytes::is_ascii(texts[i]) by {
        if i > 0 {
            assert(is_line(lines[i - 1]));
            lemma_line_reads(fields, lines[i - 1]);
            assert(texts[i][0] != 0x0d);
        }
    }
    lemma_header_splits(texts);
    lemma_header_is_ascii(texts);
    assert(bytes::before(raw, end - 2) =~= joined(texts));
    let all = texts.push(Seq::empty());
    assert(all.drop_first() =~= written_lines(lines).push(Seq::empty()));
    lemma_lines_read(fields, lines);
    lemma_line_errors(fields, all.drop_first());
    let encodings = values(lines, "transfer-encoding".spec_bytes());
    if encodings.len() == 1 {
        lemma_same_word(encodings[0], "chunked".spec_bytes());
    }
}

} // verus!
