//! How pages of listings are written, and that they are read back.

use crate::bytes;
use crate::element;
use crate::element::Element;
use crate::error::HttpError;
use crate::list;
use crate::list::{
    MAX_LIST_BODY_BYTES, MAX_LIST_KEYS, MAX_LIST_XML_EVENTS, MAX_LIST_XML_TEXT_BYTES,
};
use crate::number;
use crate::text;
use crate::xml;
use vstd::prelude::*;
use vstd::string::*;
use vstd::utf8::*;

verus! {

/// A byte that is written as a reference.
pub open spec fn is_special(b: u8) -> bool {
    b == '&' as u8 || b == '<' as u8 || b == '>' as u8
}

/// How a byte is written in a text.
pub open spec fn escaped_byte(b: u8) -> Seq<u8> {
    if b == '&' as u8 {
        "&amp;".spec_bytes()
    } else if b == '<' as u8 {
        "&lt;".spec_bytes()
    } else if b == '>' as u8 {
        "&gt;".spec_bytes()
    } else {
        seq![b]
    }
}

/// How a text is written.
pub open spec fn escaped(text: Seq<u8>) -> Seq<u8>
    decreases text.len(),
{
    if text.len() == 0 {
        Seq::empty()
    } else {
        escaped_byte(text[0]) + escaped(bytes::after(text, 1))
    }
}

/// How many bytes at the start of a text are written as they are.
pub open spec fn plain_length(text: Seq<u8>) -> int {
    bytes::span(text, |b: u8| !is_special(b))
}

/// How many tokens a text is written in: each reference is one, and so is each
/// run between them.
pub open spec fn token_count(text: Seq<u8>) -> int
    decreases text.len(),
{
    if text.len() == 0 {
        0
    } else if is_special(text[0]) {
        1 + token_count(bytes::after(text, 1))
    } else {
        proof {
            bytes::lemma_span(text, |b: u8| !is_special(b));
        }
        1 + token_count(bytes::after(text, plain_length(text)))
    }
}

/// A run that is written as it is.
proof fn lemma_escaped_run(text: Seq<u8>, n: int)
    requires
        0 <= n <= text.len(),
        forall|i: int| 0 <= i < n ==> !is_special(#[trigger] text[i]),
    ensures
        escaped(text) == bytes::before(text, n) + escaped(bytes::after(text, n)),
    decreases n,
{
    if n == 0 {
        assert(bytes::after(text, 0) =~= text);
        assert(bytes::before(text, 0) + escaped(text) =~= escaped(text));
    } else {
        let rest = bytes::after(text, 1);
        assert forall|i: int| 0 <= i < n - 1 implies !is_special(#[trigger] rest[i]) by {
            assert(!is_special(text[i + 1]));
        }
        lemma_escaped_run(rest, n - 1);
        assert(bytes::after(rest, n - 1) =~= bytes::after(text, n));
        assert(!is_special(text[0]));
        assert(escaped(text) =~= bytes::before(text, n) + escaped(bytes::after(text, n)));
    }
}

proof fn lemma_marks()
    ensures
        "<?xml".spec_bytes() == seq!['<' as u8, '?' as u8, 'x' as u8, 'm' as u8, 'l' as u8],
        "<!".spec_bytes() == seq!['<' as u8, '!' as u8],
        "<?".spec_bytes() == seq!['<' as u8, '?' as u8],
        "</".spec_bytes() == seq!['<' as u8, '/' as u8],
        "<".spec_bytes() == seq!['<' as u8],
        "&".spec_bytes() == seq!['&' as u8],
{
    reveal_strlit("<?xml");
    is_ascii_chars_encode_utf8("<?xml"@);
    reveal_strlit("<!");
    is_ascii_chars_encode_utf8("<!"@);
    reveal_strlit("<?");
    is_ascii_chars_encode_utf8("<?"@);
    reveal_strlit("</");
    is_ascii_chars_encode_utf8("</"@);
    reveal_strlit("<");
    is_ascii_chars_encode_utf8("<"@);
    reveal_strlit("&");
    is_ascii_chars_encode_utf8("&"@);
    assert("<?xml".spec_bytes() =~= seq!['<' as u8, '?' as u8, 'x' as u8, 'm' as u8, 'l' as u8]);
    assert("<!".spec_bytes() =~= seq!['<' as u8, '!' as u8]);
    assert("<?".spec_bytes() =~= seq!['<' as u8, '?' as u8]);
    assert("</".spec_bytes() =~= seq!['<' as u8, '/' as u8]);
    assert("<".spec_bytes() =~= seq!['<' as u8]);
    assert("&".spec_bytes() =~= seq!['&' as u8]);
}

/// What a document begins with, by its first byte and its second.
pub proof fn lemma_first_bytes(rest: Seq<u8>)
    requires
        rest.len() > 0,
    ensures
        bytes::starts_with(rest, "<".spec_bytes()) == (rest[0] == '<' as u8),
        bytes::starts_with(rest, "&".spec_bytes()) == (rest[0] == '&' as u8),
        bytes::starts_with(rest, "</".spec_bytes()) == (rest.len() > 1 && rest[0] == '<' as u8
            && rest[1] == '/' as u8),
        bytes::starts_with(rest, "<!".spec_bytes()) == (rest.len() > 1 && rest[0] == '<' as u8
            && rest[1] == '!' as u8),
        bytes::starts_with(rest, "<?".spec_bytes()) == (rest.len() > 1 && rest[0] == '<' as u8
            && rest[1] == '?' as u8),
        bytes::starts_with(rest, "<?xml".spec_bytes()) ==> rest.len() > 1 && rest[0] == '<' as u8
            && rest[1] == '?' as u8,
{
    lemma_marks();
    if rest[0] == '<' as u8 {
        assert(rest.subrange(0, 1) =~= "<".spec_bytes());
    }
    if rest[0] == '&' as u8 {
        assert(rest.subrange(0, 1) =~= "&".spec_bytes());
    }
    if rest.len() > 1 {
        let two = rest.subrange(0, 2);
        assert(two =~= seq![rest[0], rest[1]]);
        assert(two == "</".spec_bytes() <==> (rest[0] == '<' as u8 && rest[1] == '/' as u8)) by {
            if two == "</".spec_bytes() {
                assert(two[0] == '<' as u8 && two[1] == '/' as u8);
            }
        }
        assert(two == "<!".spec_bytes() <==> (rest[0] == '<' as u8 && rest[1] == '!' as u8)) by {
            if two == "<!".spec_bytes() {
                assert(two[0] == '<' as u8 && two[1] == '!' as u8);
            }
        }
        assert(two == "<?".spec_bytes() <==> (rest[0] == '<' as u8 && rest[1] == '?' as u8)) by {
            if two == "<?".spec_bytes() {
                assert(two[0] == '<' as u8 && two[1] == '?' as u8);
            }
        }
    }
    if bytes::starts_with(rest, "<".spec_bytes()) {
        assert(rest.subrange(0, 1)[0] == '<' as u8);
    }
    if bytes::starts_with(rest, "&".spec_bytes()) {
        assert(rest.subrange(0, 1)[0] == '&' as u8);
    }
    if bytes::starts_with(rest, "<?xml".spec_bytes()) {
        assert(rest.subrange(0, 5)[0] == '<' as u8);
        assert(rest.subrange(0, 5)[1] == '?' as u8);
    }
}

/// A run of text up to the next mark is one token.
proof fn lemma_run_token(run: Seq<u8>, rest: Seq<u8>, cursor: int)
    requires
        run.len() > 0,
        forall|i: int| 0 <= i < run.len() ==> !is_special(#[trigger] run[i]),
        rest.len() > 0,
        !xml::is_text_byte(rest[0]),
    ensures
        xml::token_at(run + rest, cursor) == Ok::<(xml::TokenModel, int), HttpError>(
            (xml::TokenModel::Text { text: run }, run.len() as int),
        ),
{
    let s = run + rest;
    let p = |b: u8| xml::is_text_byte(b);
    assert(!is_special(run[0]));
    assert(s[0] == run[0]);
    lemma_first_bytes(s);
    lemma_span_run(run, rest, p);
    assert(bytes::before(s, run.len() as int) =~= run);
    reveal_strlit("]]>");
    is_ascii_chars_encode_utf8("]]>"@);
    let mark = "]]>".spec_bytes();
    if bytes::contains(run, mark) {
        let i = choose|i: int| bytes::occurs_at(run, mark, i);
        assert(run.subrange(i, i + 3)[2] == mark[2]);
        assert(!is_special(run[i + 2]));
    }
}

/// A run ends where the predicate fails.
pub proof fn lemma_span_run(run: Seq<u8>, rest: Seq<u8>, p: spec_fn(u8) -> bool)
    requires
        bytes::all(run, p),
        rest.len() > 0 ==> !p(rest[0]),
    ensures
        bytes::span(run + rest, p) == run.len(),
    decreases run.len(),
{
    let s = run + rest;
    if run.len() == 0 {
        assert(s =~= rest);
    } else {
        assert(p(run[0]));
        assert(bytes::after(s, 1) =~= bytes::after(run, 1) + rest);
        lemma_span_run(bytes::after(run, 1), rest, p);
    }
}

/// The name of the reference that a special byte is written as.
spec fn reference_name(b: u8) -> Seq<u8> {
    if b == '&' as u8 {
        "amp".spec_bytes()
    } else if b == '<' as u8 {
        "lt".spec_bytes()
    } else {
        "gt".spec_bytes()
    }
}

proof fn lemma_references(b: u8)
    requires
        is_special(b),
    ensures
        escaped_byte(b) == seq!['&' as u8] + reference_name(b) + seq![';' as u8],
        2 <= reference_name(b).len() <= 3,
        bytes::is_free_of(reference_name(b), ';' as u8),
        xml::referred(reference_name(b)) == Some(b as u32),
        encode_scalar(b as u32) == seq![b],
{
    reveal_strlit("&amp;");
    is_ascii_chars_encode_utf8("&amp;"@);
    reveal_strlit("&lt;");
    is_ascii_chars_encode_utf8("&lt;"@);
    reveal_strlit("&gt;");
    is_ascii_chars_encode_utf8("&gt;"@);
    reveal_strlit("amp");
    is_ascii_chars_encode_utf8("amp"@);
    reveal_strlit("lt");
    is_ascii_chars_encode_utf8("lt"@);
    reveal_strlit("gt");
    is_ascii_chars_encode_utf8("gt"@);
    assert(escaped_byte(b) =~= seq!['&' as u8] + reference_name(b) + seq![';' as u8]);
    assert("amp".spec_bytes().len() == 3);
    assert("lt".spec_bytes()[0] == 'l' as u8);
    assert("gt".spec_bytes()[0] == 'g' as u8);
    assert((0x26u32 & 0x7f) as u8 == 0x26u8) by (bit_vector);
    assert((0x3cu32 & 0x7f) as u8 == 0x3cu8) by (bit_vector);
    assert((0x3eu32 & 0x7f) as u8 == 0x3eu8) by (bit_vector);
}

/// A special byte is one token.
proof fn lemma_reference_token(b: u8, rest: Seq<u8>, cursor: int)
    requires
        is_special(b),
    ensures
        xml::token_at(escaped_byte(b) + rest, cursor) == Ok::<(xml::TokenModel, int), HttpError>(
            (xml::TokenModel::Text { text: seq![b] }, escaped_byte(b).len() as int),
        ),
{
    lemma_references(b);
    let name = reference_name(b);
    let mark = seq![';' as u8];
    let head = seq!['&' as u8] + name;
    let s = escaped_byte(b) + rest;
    assert(s =~= head + mark + rest);
    assert(s[0] == '&' as u8);
    lemma_first_bytes(s);
    assert(bytes::is_free_of(head, ';' as u8)) by {
        assert forall|i: int| 0 <= i < head.len() implies #[trigger] head[i] != ';' as u8 by {
            if i > 0 {
                assert(name[i - 1] != ';' as u8);
            }
        }
    }
    bytes::lemma_split_first(head, mark, rest);
    assert(s.subrange(1, head.len() as int) =~= name);
}

/// How the first token of a text is written.
spec fn first_written(text: Seq<u8>) -> Seq<u8> {
    if is_special(text[0]) {
        escaped_byte(text[0])
    } else {
        bytes::before(text, plain_length(text))
    }
}

/// How many bytes of a text its first token stands for.
spec fn first_length(text: Seq<u8>) -> int {
    if is_special(text[0]) {
        1
    } else {
        plain_length(text)
    }
}

/// The first token of a text, and what is left of the text behind it.
proof fn lemma_first_token(text: Seq<u8>, rest: Seq<u8>, cursor: int)
    requires
        text.len() > 0,
        rest.len() > 0,
        rest[0] == '<' as u8,
    ensures
        0 < first_length(text) <= text.len(),
        first_written(text).len() > 0,
        escaped(text) == first_written(text) + escaped(bytes::after(text, first_length(text))),
        xml::token_at(
            first_written(text) + (escaped(bytes::after(text, first_length(text))) + rest),
            cursor,
        ) == Ok::<(xml::TokenModel, int), HttpError>(
            (
                xml::TokenModel::Text { text: bytes::before(text, first_length(text)) },
                first_written(text).len() as int,
            ),
        ),
        token_count(text) == 1 + token_count(bytes::after(text, first_length(text))),
{
    let n = first_length(text);
    let run = bytes::before(text, n);
    let tail = bytes::after(text, n);
    let next = escaped(tail) + rest;
    bytes::lemma_span(text, |b: u8| !is_special(b));
    if is_special(text[0]) {
        lemma_references(text[0]);
        lemma_reference_token(text[0], next, cursor);
        assert(run =~= seq![text[0]]);
    } else {
        assert forall|i: int| 0 <= i < n implies !is_special(#[trigger] text[i]) by {
            assert(run[i] == text[i]);
        }
        lemma_escaped_run(text, n);
        assert(!xml::is_text_byte(next[0])) by {
            if tail.len() > 0 {
                assert(text[n] == tail[0]);
                lemma_references(tail[0]);
                assert(escaped_byte(tail[0])[0] == '&' as u8);
                assert(next[0] == escaped_byte(tail[0])[0]);
            } else {
                assert(next =~= rest);
            }
        }
        lemma_run_token(run, next, cursor);
    }
}

/// A token of text is read.
proof fn lemma_text_token_reads(
    page: list::PageState,
    written: Seq<u8>,
    run: Seq<u8>,
    rest: Seq<u8>,
    cursor: int,
)
    requires
        list::open_element(page) matches Some(e) && e.is_scalar() && page.text.len() + run.len()
            <= e.text_limit(),
        0 <= page.events < MAX_LIST_XML_EVENTS,
        0 <= page.total_text_bytes,
        page.total_text_bytes + run.len() <= MAX_LIST_XML_TEXT_BYTES,
        written.len() > 0,
        xml::token_at(written + rest, cursor) == Ok::<(xml::TokenModel, int), HttpError>(
            (xml::TokenModel::Text { text: run }, written.len() as int),
        ),
    ensures
        list::read(page, written + rest, cursor) == list::read(
            list::PageState {
                text: page.text + run,
                total_text_bytes: page.total_text_bytes + run.len(),
                events: page.events + 1,
                ..page
            },
            rest,
            cursor + written.len(),
        ),
{
    let s = written + rest;
    reveal(list::read);
    let counted = list::PageState { events: page.events + 1, ..page };
    let next = list::PageState {
        text: page.text + run,
        total_text_bytes: page.total_text_bytes + run.len(),
        ..counted
    };
    assert(list::open_element(counted) == list::open_element(page));
    assert(list::with_text(counted, run) == Ok::<list::PageState, HttpError>(next));
    assert(bytes::after(s, written.len() as int) =~= rest);
}

/// A text is read back: where an element that holds text is open, reading what
/// a text is written as adds exactly that text.
proof fn lemma_text_reads(page: list::PageState, text: Seq<u8>, rest: Seq<u8>, cursor: int)
    requires
        list::open_element(page) matches Some(e) && e.is_scalar() && page.text.len() + text.len()
            <= e.text_limit(),
        0 <= page.events,
        page.events + token_count(text) <= MAX_LIST_XML_EVENTS,
        0 <= page.total_text_bytes,
        page.total_text_bytes + text.len() <= MAX_LIST_XML_TEXT_BYTES,
        rest.len() > 0,
        rest[0] == '<' as u8,
    ensures
        list::read(page, escaped(text) + rest, cursor) == list::read(
            list::PageState {
                text: page.text + text,
                total_text_bytes: page.total_text_bytes + text.len(),
                events: page.events + token_count(text),
                ..page
            },
            rest,
            cursor + escaped(text).len(),
        ),
    decreases text.len(),
{
    let s = escaped(text) + rest;
    if text.len() == 0 {
        assert(s =~= rest);
        assert(page.text + text =~= page.text);
    } else {
        let n = first_length(text);
        let written = first_written(text);
        let run = bytes::before(text, n);
        let tail = bytes::after(text, n);
        lemma_first_token(text, rest, cursor);
        lemma_token_count_is_natural(tail);
        assert(s =~= written + (escaped(tail) + rest));
        lemma_text_token_reads(page, written, run, escaped(tail) + rest, cursor);
        let next = list::PageState {
            text: page.text + run,
            total_text_bytes: page.total_text_bytes + run.len(),
            events: page.events + 1,
            ..page
        };
        assert(list::open_element(next) == list::open_element(page));
        lemma_text_reads(next, tail, rest, cursor + written.len());
        assert((page.text + run) + tail =~= page.text + text);
    }
}

proof fn lemma_token_count_is_natural(text: Seq<u8>)
    ensures
        0 <= token_count(text),
    decreases text.len(),
{
    if text.len() > 0 {
        bytes::lemma_span(text, |b: u8| !is_special(b));
        if is_special(text[0]) {
            lemma_token_count_is_natural(bytes::after(text, 1));
        } else {
            lemma_token_count_is_natural(bytes::after(text, plain_length(text)));
        }
    }
}

/// A start tag.
pub open spec fn start_tag(element: Element) -> Seq<u8> {
    seq!['<' as u8] + element::element_name(element) + seq!['>' as u8]
}

/// An end tag.
pub open spec fn end_tag(element: Element) -> Seq<u8> {
    seq!['<' as u8, '/' as u8] + element::element_name(element) + seq!['>' as u8]
}

pub proof fn lemma_element_name(element: Element)
    ensures
        xml::is_element_name(element::element_name(element)),
        bytes::is_free_of(element::element_name(element), '>' as u8),
        bytes::all(element::element_name(element), |b: u8| xml::is_not_whitespace(b)),
        element::element_name(element).last() != '/' as u8,
        element::element_name(element)[0] != '/' as u8,
        element::element_name(element)[0] != '!' as u8,
        element::element_name(element)[0] != '?' as u8,
        1 <= element::element_name(element).len() <= 21,
{
    let name = element::element_name(element);
    element::lemma_names(element);
    assert forall|i: int| 0 <= i < name.len() implies bytes::is_lowercase(#[trigger] name[i])
        || bytes::is_uppercase(name[i]) by {}
}

/// A start tag is one token.
pub proof fn lemma_start_token(element: Element, rest: Seq<u8>, cursor: int)
    ensures
        xml::token_at(start_tag(element) + rest, cursor) == Ok::<(xml::TokenModel, int), HttpError>(
            (
                xml::TokenModel::Start {
                    name: element::element_name(element),
                    attributes: 0,
                    self_closing: false,
                },
                start_tag(element).len() as int,
            ),
        ),
{
    let name = element::element_name(element);
    let mark = seq!['>' as u8];
    let head = seq!['<' as u8] + name;
    let s = start_tag(element) + rest;
    let p = |b: u8| xml::is_not_whitespace(b);
    lemma_element_name(element);
    assert(s =~= head + mark + rest);
    assert(s[0] == '<' as u8);
    assert(s[1] == name[0]);
    lemma_first_bytes(s);
    assert(bytes::is_free_of(head, '>' as u8)) by {
        assert forall|i: int| 0 <= i < head.len() implies #[trigger] head[i] != '>' as u8 by {
            if i > 0 {
                assert(name[i - 1] != '>' as u8);
            }
        }
    }
    bytes::lemma_split_first(head, mark, rest);
    assert(s.subrange(1, head.len() as int) =~= name);
    lemma_span_run(name, Seq::empty(), p);
    assert(name + Seq::<u8>::empty() =~= name);
    assert(bytes::before(name, name.len() as int) =~= name);
}

/// An end tag is one token.
pub proof fn lemma_end_token(element: Element, rest: Seq<u8>, cursor: int)
    ensures
        xml::token_at(end_tag(element) + rest, cursor) == Ok::<(xml::TokenModel, int), HttpError>(
            (
                xml::TokenModel::End { name: element::element_name(element) },
                end_tag(element).len() as int,
            ),
        ),
{
    let name = element::element_name(element);
    let mark = seq!['>' as u8];
    let head = seq!['<' as u8, '/' as u8] + name;
    let s = end_tag(element) + rest;
    lemma_element_name(element);
    assert(s =~= head + mark + rest);
    assert(s[0] == '<' as u8);
    assert(s[1] == '/' as u8);
    lemma_first_bytes(s);
    assert(bytes::is_free_of(head, '>' as u8)) by {
        assert forall|i: int| 0 <= i < head.len() implies #[trigger] head[i] != '>' as u8 by {
            if i > 1 {
                assert(name[i - 2] != '>' as u8);
            }
        }
    }
    bytes::lemma_split_first(head, mark, rest);
    assert(s.subrange(2, head.len() as int) =~= name);
}

/// One more event was counted.
pub open spec fn counted(page: list::PageState) -> list::PageState {
    list::PageState { events: page.events + 1, ..page }
}

/// A start tag is read.
pub proof fn lemma_start_reads(page: list::PageState, element: Element, rest: Seq<u8>, cursor: int)
    requires
        0 <= page.events < MAX_LIST_XML_EVENTS,
    ensures
        list::read(page, start_tag(element) + rest, cursor) == (match list::with_start(
            counted(page),
            element::element_name(element),
            0,
        ) {
            Ok(next) => list::read(next, rest, cursor + start_tag(element).len()),
            Err(error) => Err(error),
        }),
{
    let s = start_tag(element) + rest;
    reveal(list::read);
    lemma_start_token(element, rest, cursor);
    assert(list::with_event(page) == Ok::<list::PageState, HttpError>(counted(page)));
    assert(bytes::after(s, start_tag(element).len() as int) =~= rest);
}

/// An end tag is read.
pub proof fn lemma_end_reads(page: list::PageState, element: Element, rest: Seq<u8>, cursor: int)
    requires
        0 <= page.events < MAX_LIST_XML_EVENTS,
    ensures
        list::read(page, end_tag(element) + rest, cursor) == (match list::with_end(
            counted(page),
            element::element_name(element),
        ) {
            Ok(next) => list::read(next, rest, cursor + end_tag(element).len()),
            Err(error) => Err(error),
        }),
{
    let s = end_tag(element) + rest;
    reveal(list::read);
    lemma_end_token(element, rest, cursor);
    assert(list::with_event(page) == Ok::<list::PageState, HttpError>(counted(page)));
    assert(bytes::after(s, end_tag(element).len() as int) =~= rest);
}

/// A field: an element and its text.
pub struct Field {
    pub element: Element,
    pub text: Seq<u8>,
}

/// How a field is written.
pub open spec fn written_field(field: Field) -> Seq<u8> {
    start_tag(field.element) + escaped(field.text) + end_tag(field.element)
}

/// How many tokens a field is written in.
pub open spec fn field_events(field: Field) -> int {
    2 + token_count(field.text)
}

/// The page after a field was read, apart from what the field says.
spec fn after_field(page: list::PageState, field: Field) -> list::PageState {
    list::PageState {
        text: Seq::empty(),
        total_text_bytes: page.total_text_bytes + field.text.len(),
        events: page.events + field_events(field),
        ..page
    }
}

/// A field is read back.
proof fn lemma_field_reads(page: list::PageState, field: Field, rest: Seq<u8>, cursor: int)
    requires
        !page.root_closed,
        element::is_child(list::open_element(page), field.element),
        field.element.is_scalar(),
        page.stack.len() < list::MAX_LIST_XML_DEPTH,
        field.text.len() <= field.element.text_limit(),
        0 <= page.events,
        page.events + field_events(field) <= MAX_LIST_XML_EVENTS,
        0 <= page.total_text_bytes,
        page.total_text_bytes + field.text.len() <= MAX_LIST_XML_TEXT_BYTES,
    ensures
        list::read(page, written_field(field) + rest, cursor) == (match list::with_scalar(
            after_field(page, field),
            field.element,
            field.text,
        ) {
            Ok(next) => list::read(next, rest, cursor + written_field(field).len()),
            Err(error) => Err(error),
        }),
{
    let element = field.element;
    let name = element::element_name(element);
    let text = field.text;
    let closing = end_tag(element) + rest;
    let s = written_field(field) + rest;
    lemma_token_count_is_natural(text);
    element::lemma_child(list::open_element(page), element);
    assert(s =~= start_tag(element) + (escaped(text) + closing));
    lemma_start_reads(page, element, escaped(text) + closing, cursor);
    let started = list::PageState {
        stack: page.stack.push(element),
        text: Seq::empty(),
        ..counted(page)
    };
    assert(list::with_start(counted(page), name, 0) == Ok::<list::PageState, HttpError>(started));
    assert(closing[0] == '<' as u8);
    let opened = cursor + start_tag(element).len();
    lemma_text_reads(started, text, closing, opened);
    let filled = list::PageState {
        text: started.text + text,
        total_text_bytes: started.total_text_bytes + text.len(),
        events: started.events + token_count(text),
        ..started
    };
    assert(started.text + text =~= text);
    lemma_end_reads(filled, element, rest, opened + escaped(text).len());
    let popped = list::PageState {
        stack: counted(filled).stack.drop_last(),
        text: Seq::empty(),
        ..counted(filled)
    };
    assert(popped.stack =~= page.stack);
    assert(popped == after_field(page, field));
}

/// How a number of fields are written.
pub open spec fn written_fields(fields: Seq<Field>) -> Seq<u8>
    decreases fields.len(),
{
    if fields.len() == 0 {
        Seq::empty()
    } else {
        written_field(fields[0]) + written_fields(fields.drop_first())
    }
}

/// How many tokens a number of fields are written in.
pub open spec fn fields_events(fields: Seq<Field>) -> int
    decreases fields.len(),
{
    if fields.len() == 0 {
        0
    } else {
        field_events(fields[0]) + fields_events(fields.drop_first())
    }
}

/// How many bytes of text a number of fields hold.
pub open spec fn fields_text(fields: Seq<Field>) -> int
    decreases fields.len(),
{
    if fields.len() == 0 {
        0
    } else {
        fields[0].text.len() + fields_text(fields.drop_first())
    }
}

/// The page after a number of fields were read.
spec fn after_fields(page: list::PageState, fields: Seq<Field>) -> Result<
    list::PageState,
    HttpError,
>
    decreases fields.len(),
{
    if fields.len() == 0 {
        Ok(page)
    } else {
        match list::with_scalar(
            after_field(page, fields[0]),
            fields[0].element,
            fields[0].text,
        ) {
            Ok(next) => after_fields(next, fields.drop_first()),
            Err(error) => Err(error),
        }
    }
}

/// Whether fields may stand in an element, and are within their limits.
spec fn are_fields_of(parent: Element, fields: Seq<Field>) -> bool {
    forall|i: int|
        0 <= i < fields.len() ==> {
            let field = #[trigger] fields[i];
            &&& element::is_child(Some(parent), field.element)
            &&& field.element.is_scalar()
            &&& field.text.len() <= field.element.text_limit()
        }
}

/// What is counted of fields is not negative.
proof fn lemma_fields_are_natural(fields: Seq<Field>)
    ensures
        0 <= fields_events(fields),
        0 <= fields_text(fields),
    decreases fields.len(),
{
    if fields.len() > 0 {
        lemma_token_count_is_natural(fields[0].text);
        lemma_fields_are_natural(fields.drop_first());
    }
}

/// A number of fields are read back.
proof fn lemma_fields_read(
    page: list::PageState,
    parent: Element,
    fields: Seq<Field>,
    rest: Seq<u8>,
    cursor: int,
)
    requires
        !page.root_closed,
        list::open_element(page) == Some(parent),
        are_fields_of(parent, fields),
        page.stack.len() < list::MAX_LIST_XML_DEPTH,
        0 <= page.events,
        page.events + fields_events(fields) <= MAX_LIST_XML_EVENTS,
        0 <= page.total_text_bytes,
        page.total_text_bytes + fields_text(fields) <= MAX_LIST_XML_TEXT_BYTES,
    ensures
        list::read(page, written_fields(fields) + rest, cursor) == (match after_fields(
            page,
            fields,
        ) {
            Ok(next) => list::read(next, rest, cursor + written_fields(fields).len()),
            Err(error) => Err(error),
        }),
        after_fields(page, fields) matches Ok(next) ==> {
            &&& next.stack == page.stack
            &&& next.root_closed == page.root_closed
            &&& next.events == page.events + fields_events(fields)
            &&& next.total_text_bytes == page.total_text_bytes + fields_text(fields)
            &&& next.objects == page.objects
        },
    decreases fields.len(),
{
    if fields.len() == 0 {
        assert(written_fields(fields) + rest =~= rest);
    } else {
        let field = fields[0];
        let tail = fields.drop_first();
        assert(written_fields(fields) + rest =~= written_field(field) + (written_fields(tail)
            + rest));
        lemma_fields_are_natural(tail);
        lemma_token_count_is_natural(field.text);
        assert(element::is_child(Some(parent), field.element));
        lemma_field_reads(page, field, written_fields(tail) + rest, cursor);
        let base = after_field(page, field);
        if let Ok(next) = list::with_scalar(base, field.element, field.text) {
            assert(are_fields_of(parent, tail)) by {
                assert forall|i: int| 0 <= i < tail.len() implies {
                    let field = #[trigger] tail[i];
                    &&& element::is_child(Some(parent), field.element)
                    &&& field.element.is_scalar()
                    &&& field.text.len() <= field.element.text_limit()
                } by {
                    assert(element::is_child(Some(parent), fields[i + 1].element));
                }
            }
            assert(next.stack == page.stack);
            lemma_fields_read(next, parent, tail, rest, cursor + written_field(field).len());
        }
    }
}

/// A number that is written is read back.
pub proof fn lemma_number_reads(n: nat, max: nat)
    requires
        n <= max <= u64::MAX,
    ensures
        list::field_number(number::decimal(n), max) == Ok::<nat, HttpError>(n),
        number::decimal(n).len() <= 20,
{
    let digits = number::decimal(n);
    number::law_decimal_reads_back(n, max);
    number::lemma_decimal_length(n);
    number::lemma_decimal_has_no_leading_zero(n);
    assert forall|i: int| 0 <= i < digits.len() implies bytes::is_digit(#[trigger] digits[i]) by {
        assert(number::is_radix_digit(digits[i], 10));
    }
}

/// A field that may be missing.
pub open spec fn optional_field(element: Element, text: Option<Seq<u8>>) -> Seq<Field> {
    match text {
        Some(text) => seq![Field { element, text }],
        None => Seq::empty(),
    }
}

/// The fields of a listed object.
pub open spec fn object_fields(object: list::ObjectModel) -> Seq<Field> {
    seq![Field { element: Element::Key, text: object.key }] + optional_field(
        Element::LastModified,
        object.last_modified,
    ) + optional_field(Element::Etag, object.etag) + seq![
        Field { element: Element::Size, text: number::decimal(object.size as nat) },
    ]
}

/// How a listed object is written.
pub open spec fn written_object(object: list::ObjectModel) -> Seq<u8> {
    start_tag(Element::Contents) + written_fields(object_fields(object)) + end_tag(
        Element::Contents,
    )
}

/// How many tokens a listed object is written in.
pub open spec fn object_events(object: list::ObjectModel) -> int {
    2 + fields_events(object_fields(object))
}

/// How many bytes of text a listed object holds.
pub open spec fn object_text(object: list::ObjectModel) -> int {
    fields_text(object_fields(object))
}

/// One more field of an object was read.
proof fn lemma_after_first_field(page: list::PageState, field: Field, rest: Seq<Field>)
    ensures
        after_fields(page, seq![field] + rest) == (match list::with_scalar(
            after_field(page, field),
            field.element,
            field.text,
        ) {
            Ok(next) => after_fields(next, rest),
            Err(error) => Err(error),
        }),
        fields_events(seq![field] + rest) == field_events(field) + fields_events(rest),
        fields_text(seq![field] + rest) == field.text.len() + fields_text(rest),
{
    assert((seq![field] + rest).drop_first() =~= rest);
}

/// The fields of an object are its fields.
proof fn lemma_after_object_fields(page: list::PageState, object: list::ObjectModel)
    requires
        page.object == Some(list::no_object_fields()),
    ensures
        after_fields(page, object_fields(object)) matches Ok(next) && next
            == (list::PageState {
            object: Some(
                list::PartialObject {
                    key: Some(object.key),
                    size: Some(object.size),
                    etag: object.etag,
                    last_modified: object.last_modified,
                    storage_class_seen: false,
                },
            ),
            text: Seq::empty(),
            total_text_bytes: next.total_text_bytes,
            events: next.events,
            ..page
        }),
{
    let key = Field { element: Element::Key, text: object.key };
    let size = Field { element: Element::Size, text: number::decimal(object.size as nat) };
    let modified = optional_field(Element::LastModified, object.last_modified);
    let etag = optional_field(Element::Etag, object.etag);
    let none = Seq::<Field>::empty();
    lemma_number_reads(object.size as nat, u64::MAX as nat);
    assert(object_fields(object) =~= seq![key] + (modified + (etag + (seq![size] + none))));
    lemma_after_first_field(page, key, modified + (etag + (seq![size] + none)));
    let first = list::with_scalar(after_field(page, key), key.element, key.text)->Ok_0;
    assert(list::with_scalar(after_field(page, key), key.element, key.text) is Ok);
    let second = match object.last_modified {
        Some(text) => {
            let field = Field { element: Element::LastModified, text };
            assert(modified + (etag + (seq![size] + none)) =~= seq![field] + (etag + (seq![size]
                + none)));
            lemma_after_first_field(first, field, etag + (seq![size] + none));
            list::with_scalar(after_field(first, field), field.element, field.text)->Ok_0
        },
        None => {
            assert(modified + (etag + (seq![size] + none)) =~= etag + (seq![size] + none));
            first
        },
    };
    assert(after_fields(page, object_fields(object)) == after_fields(
        second,
        etag + (seq![size] + none),
    ));
    let third = match object.etag {
        Some(text) => {
            let field = Field { element: Element::Etag, text };
            assert(etag + (seq![size] + none) =~= seq![field] + (seq![size] + none));
            lemma_after_first_field(second, field, seq![size] + none);
            list::with_scalar(after_field(second, field), field.element, field.text)->Ok_0
        },
        None => {
            assert(etag + (seq![size] + none) =~= seq![size] + none);
            second
        },
    };
    assert(after_fields(page, object_fields(object)) == after_fields(third, seq![size] + none));
    lemma_after_first_field(third, size, none);
}

/// The fields of a bounded object may stand in it.
proof fn lemma_object_fields(object: list::ObjectModel)
    requires
        list::is_bounded_object(object),
    ensures
        are_fields_of(Element::Contents, object_fields(object)),
{
    lemma_number_reads(object.size as nat, u64::MAX as nat);
}

/// An object is read back.
proof fn lemma_object_reads(
    page: list::PageState,
    object: list::ObjectModel,
    rest: Seq<u8>,
    cursor: int,
)
    requires
        !page.root_closed,
        page.stack == seq![Element::Root],
        page.object is None,
        list::is_bounded_object(object),
        0 <= page.events,
        page.events + object_events(object) <= MAX_LIST_XML_EVENTS,
        0 <= page.total_text_bytes,
        page.total_text_bytes + object_text(object) <= MAX_LIST_XML_TEXT_BYTES,
    ensures
        list::read(page, written_object(object) + rest, cursor) == list::read(
            list::PageState {
                objects: page.objects.push(object),
                text: Seq::empty(),
                total_text_bytes: page.total_text_bytes + object_text(object),
                events: page.events + object_events(object),
                ..page
            },
            rest,
            cursor + written_object(object).len(),
        ),
{
    let element = Element::Contents;
    let fields = object_fields(object);
    let closing = end_tag(element) + rest;
    let s = written_object(object) + rest;
    lemma_fields_are_natural(fields);
    element::lemma_child(list::open_element(page), element);
    assert(s =~= start_tag(element) + (written_fields(fields) + closing));
    lemma_start_reads(page, element, written_fields(fields) + closing, cursor);
    let started = list::PageState {
        object: Some(list::no_object_fields()),
        stack: page.stack.push(element),
        text: Seq::empty(),
        ..counted(page)
    };
    assert(list::with_start(counted(page), element::element_name(element), 0) == Ok::<
        list::PageState,
        HttpError,
    >(started));
    let opened = cursor + start_tag(element).len();
    lemma_object_fields(object);
    lemma_fields_read(started, element, fields, closing, opened);
    lemma_after_object_fields(started, object);
    let filled = after_fields(started, fields)->Ok_0;
    lemma_end_reads(filled, element, rest, opened + written_fields(fields).len());
    assert(filled.stack.drop_last() =~= page.stack);
    assert(list::with_end(counted(filled), element::element_name(element)) == Ok::<
        list::PageState,
        HttpError,
    >(
        list::PageState {
            objects: page.objects.push(object),
            text: Seq::empty(),
            total_text_bytes: page.total_text_bytes + object_text(object),
            events: page.events + object_events(object),
            ..page
        },
    ));
}

/// How a number of objects are written.
pub open spec fn written_objects(objects: Seq<list::ObjectModel>) -> Seq<u8>
    decreases objects.len(),
{
    if objects.len() == 0 {
        Seq::empty()
    } else {
        written_object(objects[0]) + written_objects(objects.drop_first())
    }
}

/// How many tokens a number of objects are written in.
pub open spec fn objects_events(objects: Seq<list::ObjectModel>) -> int
    decreases objects.len(),
{
    if objects.len() == 0 {
        0
    } else {
        object_events(objects[0]) + objects_events(objects.drop_first())
    }
}

/// How many bytes of text a number of objects hold.
pub open spec fn objects_text(objects: Seq<list::ObjectModel>) -> int
    decreases objects.len(),
{
    if objects.len() == 0 {
        0
    } else {
        object_text(objects[0]) + objects_text(objects.drop_first())
    }
}

proof fn lemma_objects_are_natural(objects: Seq<list::ObjectModel>)
    ensures
        0 <= objects_events(objects),
        0 <= objects_text(objects),
    decreases objects.len(),
{
    if objects.len() > 0 {
        lemma_fields_are_natural(object_fields(objects[0]));
        lemma_objects_are_natural(objects.drop_first());
    }
}

/// A number of objects are read back.
proof fn lemma_objects_read(
    page: list::PageState,
    objects: Seq<list::ObjectModel>,
    rest: Seq<u8>,
    cursor: int,
)
    requires
        !page.root_closed,
        page.stack == seq![Element::Root],
        page.object is None,
        page.text == Seq::<u8>::empty(),
        forall|i: int| 0 <= i < objects.len() ==> list::is_bounded_object(#[trigger] objects[i]),
        0 <= page.events,
        page.events + objects_events(objects) <= MAX_LIST_XML_EVENTS,
        0 <= page.total_text_bytes,
        page.total_text_bytes + objects_text(objects) <= MAX_LIST_XML_TEXT_BYTES,
    ensures
        list::read(page, written_objects(objects) + rest, cursor) == list::read(
            list::PageState {
                objects: page.objects + objects,
                total_text_bytes: page.total_text_bytes + objects_text(objects),
                events: page.events + objects_events(objects),
                ..page
            },
            rest,
            cursor + written_objects(objects).len(),
        ),
    decreases objects.len(),
{
    if objects.len() == 0 {
        assert(written_objects(objects) + rest =~= rest);
        assert(page.objects + objects =~= page.objects);
    } else {
        let object = objects[0];
        let tail = objects.drop_first();
        assert(written_objects(objects) + rest =~= written_object(object) + (written_objects(tail)
            + rest));
        lemma_objects_are_natural(tail);
        lemma_fields_are_natural(object_fields(object));
        lemma_object_reads(page, object, written_objects(tail) + rest, cursor);
        let next = list::PageState {
            objects: page.objects.push(object),
            text: Seq::empty(),
            total_text_bytes: page.total_text_bytes + object_text(object),
            events: page.events + object_events(object),
            ..page
        };
        assert forall|i: int| 0 <= i < tail.len() implies list::is_bounded_object(
            #[trigger] tail[i],
        ) by {
            assert(list::is_bounded_object(objects[i + 1]));
        }
        lemma_objects_read(next, tail, rest, cursor + written_object(object).len());
        assert(page.objects.push(object) + tail =~= page.objects + objects);
    }
}

/// How a truth value is written.
pub open spec fn flag(value: bool) -> Seq<u8> {
    if value {
        "true".spec_bytes()
    } else {
        "false".spec_bytes()
    }
}

/// The fields of a page that answers a request.
pub open spec fn page_fields(
    page: list::PageModel,
    bucket: Seq<u8>,
    prefix: Seq<u8>,
    max_keys: u32,
    token: Option<Seq<u8>>,
) -> Seq<Field> {
    seq![
        Field { element: Element::Name, text: bucket },
        Field { element: Element::Prefix, text: prefix },
        Field { element: Element::KeyCount, text: number::decimal(page.objects.len()) },
        Field { element: Element::MaxKeys, text: number::decimal(max_keys as nat) },
        Field { element: Element::IsTruncated, text: flag(page.is_truncated) },
    ] + optional_field(Element::ContinuationToken, token) + optional_field(
        Element::NextContinuationToken,
        page.next_continuation_token,
    )
}

/// How a page that answers a request is written.
pub open spec fn written_page(
    page: list::PageModel,
    bucket: Seq<u8>,
    prefix: Seq<u8>,
    max_keys: u32,
    token: Option<Seq<u8>>,
) -> Seq<u8> {
    start_tag(Element::Root) + written_fields(page_fields(page, bucket, prefix, max_keys, token))
        + written_objects(page.objects) + end_tag(Element::Root)
}

/// How many tokens a page is written in.
pub open spec fn page_events(
    page: list::PageModel,
    bucket: Seq<u8>,
    prefix: Seq<u8>,
    max_keys: u32,
    token: Option<Seq<u8>>,
) -> int {
    2 + fields_events(page_fields(page, bucket, prefix, max_keys, token)) + objects_events(
        page.objects,
    )
}

/// How many bytes of text a page holds.
pub open spec fn page_text(
    page: list::PageModel,
    bucket: Seq<u8>,
    prefix: Seq<u8>,
    max_keys: u32,
    token: Option<Seq<u8>>,
) -> int {
    fields_text(page_fields(page, bucket, prefix, max_keys, token)) + objects_text(page.objects)
}

pub proof fn lemma_flags()
    ensures
        "true".spec_bytes() != "false".spec_bytes(),
        "true".spec_bytes().len() == 4,
        "false".spec_bytes().len() == 5,
{
    reveal_strlit("true");
    is_ascii_chars_encode_utf8("true"@);
    reveal_strlit("false");
    is_ascii_chars_encode_utf8("false"@);
}

/// The fields of a page are its fields.
proof fn lemma_after_page_fields(
    start: list::PageState,
    page: list::PageModel,
    bucket: Seq<u8>,
    prefix: Seq<u8>,
    max_keys: u32,
    token: Option<Seq<u8>>,
)
    requires
        page.objects.len() <= u32::MAX,
        start.name is None,
        start.prefix is None,
        start.key_count is None,
        start.max_keys is None,
        start.is_truncated is None,
        start.continuation_token is None,
        start.next_continuation_token is None,
    ensures
        after_fields(
            start,
            page_fields(page, bucket, prefix, max_keys, token),
        ) matches Ok(next) && next == (list::PageState {
            name: Some(bucket),
            prefix: Some(prefix),
            key_count: Some(page.objects.len() as u32),
            max_keys: Some(max_keys),
            is_truncated: Some(page.is_truncated),
            continuation_token: token,
            next_continuation_token: page.next_continuation_token,
            text: Seq::empty(),
            total_text_bytes: next.total_text_bytes,
            events: next.events,
            ..start
        }),
{
    let f1 = Field { element: Element::Name, text: bucket };
    let f2 = Field { element: Element::Prefix, text: prefix };
    let f3 = Field { element: Element::KeyCount, text: number::decimal(page.objects.len()) };
    let f4 = Field { element: Element::MaxKeys, text: number::decimal(max_keys as nat) };
    let f5 = Field { element: Element::IsTruncated, text: flag(page.is_truncated) };
    let before = optional_field(Element::ContinuationToken, token);
    let behind = optional_field(Element::NextContinuationToken, page.next_continuation_token);
    let none = Seq::<Field>::empty();
    let r5 = before + (behind + none);
    let r4 = seq![f5] + r5;
    let r3 = seq![f4] + r4;
    let r2 = seq![f3] + r3;
    let r1 = seq![f2] + r2;
    lemma_flags();
    lemma_number_reads(page.objects.len(), u32::MAX as nat);
    lemma_number_reads(max_keys as nat, u32::MAX as nat);
    assert(page_fields(page, bucket, prefix, max_keys, token) =~= seq![f1] + r1);
    lemma_after_first_field(start, f1, r1);
    let s1 = list::with_scalar(after_field(start, f1), f1.element, f1.text)->Ok_0;
    lemma_after_first_field(s1, f2, r2);
    let s2 = list::with_scalar(after_field(s1, f2), f2.element, f2.text)->Ok_0;
    lemma_after_first_field(s2, f3, r3);
    let s3 = list::with_scalar(after_field(s2, f3), f3.element, f3.text)->Ok_0;
    lemma_after_first_field(s3, f4, r4);
    let s4 = list::with_scalar(after_field(s3, f4), f4.element, f4.text)->Ok_0;
    lemma_after_first_field(s4, f5, r5);
    let s5 = list::with_scalar(after_field(s4, f5), f5.element, f5.text)->Ok_0;
    assert(after_fields(start, seq![f1] + r1) == after_fields(s5, r5));
    let s6 = match token {
        Some(text) => {
            let field = Field { element: Element::ContinuationToken, text };
            assert(r5 =~= seq![field] + (behind + none));
            lemma_after_first_field(s5, field, behind + none);
            list::with_scalar(after_field(s5, field), field.element, field.text)->Ok_0
        },
        None => {
            assert(r5 =~= behind + none);
            s5
        },
    };
    assert(after_fields(s5, r5) == after_fields(s6, behind + none));
    match page.next_continuation_token {
        Some(text) => {
            let field = Field { element: Element::NextContinuationToken, text };
            assert(behind + none =~= seq![field] + none);
            lemma_after_first_field(s6, field, none);
        },
        None => {
            assert(behind + none =~= none);
        },
    }
}

/// Whether a page answers a request, and all its fields are within their
/// limits.
pub open spec fn is_answer(
    page: list::PageModel,
    bucket: Seq<u8>,
    prefix: Seq<u8>,
    max_keys: u32,
    token: Option<Seq<u8>>,
) -> bool {
    &&& bucket.len() <= Element::Name.text_limit()
    &&& prefix.len() <= Element::Prefix.text_limit()
    &&& list::is_short(token, Element::ContinuationToken.text_limit() as int)
    &&& page.objects.len() <= max_keys
    &&& page.objects.len() <= MAX_LIST_KEYS
    &&& list::keys_are_distinct(page.objects, prefix)
    &&& forall|i: int|
        0 <= i < page.objects.len() ==> list::is_bounded_object(#[trigger] page.objects[i])
    &&& page.is_truncated == (page.next_continuation_token is Some)
    &&& page.next_continuation_token matches Some(next) ==> 0 < next.len()
        <= Element::NextContinuationToken.text_limit()
}

/// The fields of a page may stand in the root.
proof fn lemma_page_fields(
    page: list::PageModel,
    bucket: Seq<u8>,
    prefix: Seq<u8>,
    max_keys: u32,
    token: Option<Seq<u8>>,
)
    requires
        is_answer(page, bucket, prefix, max_keys, token),
    ensures
        are_fields_of(Element::Root, page_fields(page, bucket, prefix, max_keys, token)),
{
    lemma_flags();
    lemma_number_reads(page.objects.len(), u32::MAX as nat);
    lemma_number_reads(max_keys as nat, u32::MAX as nat);
}

/// The start of the root is read.
proof fn lemma_root_opens(rest: Seq<u8>)
    ensures
        list::read(list::empty_page(), start_tag(Element::Root) + rest, 0) == list::read(
            list::PageState { stack: seq![Element::Root], events: 1, ..list::empty_page() },
            rest,
            start_tag(Element::Root).len() as int,
        ),
{
    let start = list::empty_page();
    element::lemma_child(list::open_element(start), Element::Root);
    lemma_start_reads(start, Element::Root, rest, 0);
    assert(start.stack.push(Element::Root) =~= seq![Element::Root]);
}

/// The end of the root is read, and nothing follows it.
proof fn lemma_root_closes(page: list::PageState, cursor: int)
    requires
        page.stack == seq![Element::Root],
        0 <= page.events < MAX_LIST_XML_EVENTS,
    ensures
        list::read(page, end_tag(Element::Root), cursor) == Ok::<list::PageState, HttpError>(
            list::PageState {
                stack: Seq::empty(),
                text: Seq::empty(),
                root_closed: true,
                events: page.events + 1,
                ..page
            },
        ),
{
    let none = Seq::<u8>::empty();
    lemma_end_reads(page, Element::Root, none, cursor);
    assert(end_tag(Element::Root) + none =~= end_tag(Element::Root));
    assert(page.stack.drop_last() =~= Seq::<Element>::empty());
    reveal(list::read);
}

/// What a page says is read back from how it is written.
proof fn lemma_page_reads(
    page: list::PageModel,
    bucket: Seq<u8>,
    prefix: Seq<u8>,
    max_keys: u32,
    token: Option<Seq<u8>>,
) -> (state: list::PageState)
    requires
        is_answer(page, bucket, prefix, max_keys, token),
        page_events(page, bucket, prefix, max_keys, token) <= MAX_LIST_XML_EVENTS,
        page_text(page, bucket, prefix, max_keys, token) <= MAX_LIST_XML_TEXT_BYTES,
    ensures
        list::read(
            list::empty_page(),
            written_page(page, bucket, prefix, max_keys, token),
            0,
        ) == Ok::<list::PageState, HttpError>(state),
        state == (list::PageState {
            name: Some(bucket),
            prefix: Some(prefix),
            key_count: Some(page.objects.len() as u32),
            max_keys: Some(max_keys),
            is_truncated: Some(page.is_truncated),
            continuation_token: token,
            next_continuation_token: page.next_continuation_token,
            objects: page.objects,
            root_closed: true,
            events: state.events,
            total_text_bytes: state.total_text_bytes,
            ..list::empty_page()
        }),
{
    let fields = page_fields(page, bucket, prefix, max_keys, token);
    let objects = page.objects;
    let closing = end_tag(Element::Root);
    let listing = written_objects(objects) + closing;
    lemma_fields_are_natural(fields);
    lemma_objects_are_natural(objects);
    assert(written_page(page, bucket, prefix, max_keys, token) =~= start_tag(Element::Root) + (
    written_fields(fields) + listing));
    lemma_root_opens(written_fields(fields) + listing);
    let started = list::PageState {
        stack: seq![Element::Root],
        events: 1,
        ..list::empty_page()
    };
    let opened = start_tag(Element::Root).len() as int;
    lemma_page_fields(page, bucket, prefix, max_keys, token);
    lemma_fields_read(started, Element::Root, fields, listing, opened);
    lemma_after_page_fields(started, page, bucket, prefix, max_keys, token);
    let filled = after_fields(started, fields)->Ok_0;
    let cursor = opened + written_fields(fields).len();
    lemma_objects_read(filled, objects, closing, cursor);
    let listed = list::PageState {
        objects: filled.objects + objects,
        total_text_bytes: filled.total_text_bytes + objects_text(objects),
        events: filled.events + objects_events(objects),
        ..filled
    };
    assert(listed.objects =~= objects);
    lemma_root_closes(listed, cursor + written_objects(objects).len());
    list::PageState {
        stack: Seq::empty(),
        text: Seq::empty(),
        root_closed: true,
        events: listed.events + 1,
        ..listed
    }
}

/// Whether bytes are a text that may stand in an XML document.
pub open spec fn is_xml(s: Seq<u8>) -> bool {
    valid_utf8(s) && list::is_xml_text(s)
}

/// Whether an optional text may stand in an XML document.
pub open spec fn is_optional_xml(s: Option<Seq<u8>>) -> bool {
    s matches Some(text) ==> is_xml(text)
}

/// Two texts in a row are a text.
proof fn lemma_xml_concat(a: Seq<u8>, b: Seq<u8>)
    requires
        is_xml(a),
        is_xml(b),
    ensures
        is_xml(a + b),
{
    let s = a + b;
    let n = a.len() as int;
    if b.len() == 0 {
        assert(s =~= a);
    } else {
        valid_utf8_concat(a, b);
        assert(s[n] == b[0]);
        is_char_boundary_iff_not_is_continuation_byte(s, n);
        decode_utf8_split(s, n);
        assert(s.subrange(0, n) =~= a);
        assert(s.subrange(n, s.len() as int) =~= b);
        let chars = decode_utf8(s);
        assert forall|i: int| 0 <= i < chars.len() implies xml::is_xml_scalar(
            #[trigger] chars[i] as u32,
        ) by {
            let m = decode_utf8(a).len() as int;
            if i < m {
                assert(chars[i] == decode_utf8(a)[i]);
            } else {
                assert(chars[i] == decode_utf8(b)[i - m]);
            }
        }
    }
}

/// A text may be cut before an ASCII byte.
proof fn lemma_xml_cut(s: Seq<u8>, n: int)
    requires
        is_xml(s),
        0 <= n <= s.len(),
        n < s.len() ==> s[n] < 0x80,
    ensures
        is_xml(bytes::before(s, n)),
        is_xml(bytes::after(s, n)),
{
    let head = bytes::before(s, n);
    let tail = bytes::after(s, n);
    if n == s.len() {
        assert(head =~= s);
        assert(tail =~= Seq::<u8>::empty());
    } else {
        is_char_boundary_iff_not_is_continuation_byte(s, n);
        valid_utf8_split(s, n);
        decode_utf8_split(s, n);
        let chars = decode_utf8(s);
        let first = decode_utf8(head);
        let second = decode_utf8(tail);
        assert forall|i: int| 0 <= i < first.len() implies xml::is_xml_scalar(
            #[trigger] first[i] as u32,
        ) by {
            assert(chars[i] == first[i]);
        }
        assert forall|i: int| 0 <= i < second.len() implies xml::is_xml_scalar(
            #[trigger] second[i] as u32,
        ) by {
            assert(chars[i + first.len()] == second[i]);
        }
    }
}

/// Visible ASCII may stand in an XML document.
proof fn lemma_ascii_is_xml(s: Seq<u8>)
    requires
        bytes::all(s, |b: u8| bytes::is_graphic(b)),
    ensures
        is_xml(s),
{
    let chars = Seq::new(s.len(), |i: int| s[i] as char);
    assert forall|i: int| 0 <= i < chars.len() implies '\0' <= #[trigger] chars[i] <= '\u{7f}' by {
        assert(bytes::is_graphic(s[i]));
    }
    is_ascii_chars_encode_utf8(chars);
    assert(encode_utf8(chars) =~= s) by {
        assert forall|i: int| 0 <= i < s.len() implies encode_utf8(chars)[i] == s[i] by {
            assert(bytes::is_graphic(s[i]));
            assert(chars[i] as u8 == encode_utf8(chars)[i]);
        }
    }
    encode_utf8_valid_utf8(chars);
    encode_utf8_decode_utf8(chars);
    assert forall|i: int| 0 <= i < chars.len() implies xml::is_xml_scalar(
        #[trigger] chars[i] as u32,
    ) by {
        assert(bytes::is_graphic(s[i]));
    }
}

/// How a text is written is a text.
proof fn lemma_escaped_is_xml(text: Seq<u8>)
    requires
        is_xml(text),
    ensures
        is_xml(escaped(text)),
    decreases text.len(),
{
    if text.len() > 0 {
        let n = first_length(text);
        let tail = bytes::after(text, n);
        bytes::lemma_span(text, |b: u8| !is_special(b));
        lemma_first_token(text, seq!['<' as u8], 0);
        if is_special(text[0]) {
            lemma_reference_is_graphic(text[0]);
            lemma_ascii_is_xml(escaped_byte(text[0]));
            lemma_xml_cut_behind(text);
        } else {
            lemma_xml_cut(text, n);
        }
        lemma_escaped_is_xml(tail);
        lemma_xml_concat(first_written(text), escaped(tail));
    } else {
        assert(escaped(text) =~= text);
    }
}

proof fn lemma_reference_is_graphic(b: u8)
    requires
        is_special(b),
    ensures
        bytes::all(escaped_byte(b), |c: u8| bytes::is_graphic(c)),
{
    reveal_strlit("&amp;");
    is_ascii_chars_encode_utf8("&amp;"@);
    reveal_strlit("&lt;");
    is_ascii_chars_encode_utf8("&lt;"@);
    reveal_strlit("&gt;");
    is_ascii_chars_encode_utf8("&gt;"@);
}

/// A text may be cut behind an ASCII byte that it begins with.
proof fn lemma_xml_cut_behind(s: Seq<u8>)
    requires
        is_xml(s),
        s.len() > 0,
        is_special(s[0]),
    ensures
        is_xml(bytes::after(s, 1)),
{
    let tail = bytes::after(s, 1);
    let chars = decode_utf8(s);
    text::lemma_cut_behind_ascii(s, 0);
    assert(pop_first_scalar(s) =~= tail);
    assert forall|i: int| 0 <= i < decode_utf8(tail).len() implies xml::is_xml_scalar(
        #[trigger] decode_utf8(tail)[i] as u32,
    ) by {
        assert(chars[i + 1] == decode_utf8(tail)[i]);
    }
}

proof fn lemma_tags_are_xml(element: Element)
    ensures
        is_xml(start_tag(element)),
        is_xml(end_tag(element)),
{
    let name = element::element_name(element);
    let start = start_tag(element);
    let end = end_tag(element);
    element::lemma_names(element);
    assert forall|i: int| 0 <= i < start.len() implies bytes::is_graphic(#[trigger] start[i]) by {
        if 1 <= i < name.len() + 1 {
            assert(start[i] == name[i - 1]);
            assert(bytes::is_lowercase(name[i - 1]) || bytes::is_uppercase(name[i - 1]));
        }
    }
    assert forall|i: int| 0 <= i < end.len() implies bytes::is_graphic(#[trigger] end[i]) by {
        if 2 <= i < name.len() + 2 {
            assert(end[i] == name[i - 2]);
            assert(bytes::is_lowercase(name[i - 2]) || bytes::is_uppercase(name[i - 2]));
        }
    }
    lemma_ascii_is_xml(start);
    lemma_ascii_is_xml(end);
}

proof fn lemma_fields_are_xml(fields: Seq<Field>)
    requires
        forall|i: int| 0 <= i < fields.len() ==> is_xml(#[trigger] fields[i].text),
    ensures
        is_xml(written_fields(fields)),
    decreases fields.len(),
{
    if fields.len() == 0 {
        lemma_ascii_is_xml(written_fields(fields));
    } else {
        let field = fields[0];
        let tail = fields.drop_first();
        assert forall|i: int| 0 <= i < tail.len() implies is_xml(#[trigger] tail[i].text) by {
            assert(is_xml(fields[i + 1].text));
        }
        lemma_fields_are_xml(tail);
        lemma_tags_are_xml(field.element);
        lemma_escaped_is_xml(field.text);
        lemma_xml_concat(start_tag(field.element), escaped(field.text));
        lemma_xml_concat(
            start_tag(field.element) + escaped(field.text),
            end_tag(field.element),
        );
        lemma_xml_concat(written_field(field), written_fields(tail));
    }
}

proof fn lemma_number_is_xml(n: nat)
    ensures
        is_xml(number::decimal(n)),
{
    let digits = number::decimal(n);
    number::law_decimal_reads_back(n, n);
    assert forall|i: int| 0 <= i < digits.len() implies bytes::is_graphic(#[trigger] digits[i]) by {
        assert(number::is_radix_digit(digits[i], 10));
    }
    lemma_ascii_is_xml(digits);
}

/// Whether the texts of a listed object may stand in an XML document.
pub open spec fn is_xml_object(object: list::ObjectModel) -> bool {
    is_xml(object.key) && is_optional_xml(object.etag) && is_optional_xml(object.last_modified)
}

proof fn lemma_objects_are_xml(objects: Seq<list::ObjectModel>)
    requires
        forall|i: int| 0 <= i < objects.len() ==> is_xml_object(#[trigger] objects[i]),
    ensures
        is_xml(written_objects(objects)),
    decreases objects.len(),
{
    if objects.len() == 0 {
        lemma_ascii_is_xml(written_objects(objects));
    } else {
        let object = objects[0];
        let tail = objects.drop_first();
        assert(is_xml_object(object));
        assert forall|i: int| 0 <= i < tail.len() implies is_xml_object(#[trigger] tail[i]) by {
            assert(is_xml_object(objects[i + 1]));
        }
        lemma_objects_are_xml(tail);
        lemma_number_is_xml(object.size as nat);
        lemma_fields_are_xml(object_fields(object));
        lemma_tags_are_xml(Element::Contents);
        lemma_xml_concat(start_tag(Element::Contents), written_fields(object_fields(object)));
        lemma_xml_concat(
            start_tag(Element::Contents) + written_fields(object_fields(object)),
            end_tag(Element::Contents),
        );
        lemma_xml_concat(written_object(object), written_objects(tail));
    }
}

/// How a page is written is an XML text where its own texts are.
proof fn lemma_page_is_xml(
    page: list::PageModel,
    bucket: Seq<u8>,
    prefix: Seq<u8>,
    max_keys: u32,
    token: Option<Seq<u8>>,
)
    requires
        is_xml(bucket),
        is_xml(prefix),
        is_optional_xml(token),
        is_optional_xml(page.next_continuation_token),
        forall|i: int| 0 <= i < page.objects.len() ==> is_xml_object(#[trigger] page.objects[i]),
    ensures
        is_xml(written_page(page, bucket, prefix, max_keys, token)),
{
    let fields = page_fields(page, bucket, prefix, max_keys, token);
    reveal_strlit("true");
    is_ascii_chars_encode_utf8("true"@);
    reveal_strlit("false");
    is_ascii_chars_encode_utf8("false"@);
    lemma_ascii_is_xml(flag(page.is_truncated));
    lemma_number_is_xml(page.objects.len());
    lemma_number_is_xml(max_keys as nat);
    lemma_fields_are_xml(fields);
    lemma_objects_are_xml(page.objects);
    lemma_tags_are_xml(Element::Root);
    let start = start_tag(Element::Root);
    lemma_xml_concat(start, written_fields(fields));
    lemma_xml_concat(start + written_fields(fields), written_objects(page.objects));
    lemma_xml_concat(
        start + written_fields(fields) + written_objects(page.objects),
        end_tag(Element::Root),
    );
}

/// A page is read back: one that answers a request, whose texts may stand in
/// an XML document, and that is within the limits on bytes, tokens and text, is
/// returned exactly as it was written.
pub proof fn law_written_pages_read_back(
    page: list::PageModel,
    bucket: Seq<u8>,
    prefix: Seq<u8>,
    max_keys: u32,
    token: Option<Seq<u8>>,
)
    requires
        is_answer(page, bucket, prefix, max_keys, token),
        is_xml(bucket),
        is_xml(prefix),
        is_optional_xml(token),
        is_optional_xml(page.next_continuation_token),
        forall|i: int| 0 <= i < page.objects.len() ==> is_xml_object(#[trigger] page.objects[i]),
        page_events(page, bucket, prefix, max_keys, token) <= MAX_LIST_XML_EVENTS,
        page_text(page, bucket, prefix, max_keys, token) <= MAX_LIST_XML_TEXT_BYTES,
        written_page(page, bucket, prefix, max_keys, token).len() <= MAX_LIST_BODY_BYTES,
    ensures
        list::page_of(
            written_page(page, bucket, prefix, max_keys, token),
            bucket,
            prefix,
            max_keys,
            token,
        ) == Ok::<list::PageModel, HttpError>(page),
{
    lemma_page_is_xml(page, bucket, prefix, max_keys, token);
    let state = lemma_page_reads(page, bucket, prefix, max_keys, token);
    assert(list::finished(state, bucket, prefix, max_keys, token) == Ok::<
        list::PageModel,
        HttpError,
    >(page));
}

} // verus!
