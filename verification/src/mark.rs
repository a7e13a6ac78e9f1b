//! The markup that listings may hold.

use crate::bytes;
use crate::document;
use crate::element;
use crate::element::Element;
use crate::error::{HttpError, HttpErrorKind};
use crate::list;
use crate::piece;
use crate::piece::Piece;
use crate::xml;
use vstd::prelude::*;
use vstd::string::*;
use vstd::utf8::*;

verus! {

/// A piece of markup, or of text.
pub enum Mark {
    Declaration { text: Seq<u8> },
    Open { name: Seq<u8>, namespace: Seq<u8> },
    Empty { name: Seq<u8>, namespace: Seq<u8>, blanks: Seq<u8> },
    Close { name: Seq<u8> },
    Text { piece: Piece },
}

/// How a mark is written.
pub open spec fn written_mark(mark: Mark) -> Seq<u8> {
    match mark {
        Mark::Declaration { text } => text,
        Mark::Open { name, namespace } => seq![0x3cu8] + name + namespace + seq![0x3eu8],
        Mark::Empty { name, namespace, blanks } => seq![0x3cu8] + name + namespace + blanks + seq![
            0x2fu8,
            0x3eu8,
        ],
        Mark::Close { name } => seq![0x3cu8, 0x2fu8] + name + seq![0x3eu8],
        Mark::Text { piece } => piece::written_piece(piece),
    }
}

/// How marks are written.
pub open spec fn written_marks(marks: Seq<Mark>) -> Seq<u8>
    decreases marks.len(),
{
    if marks.len() == 0 {
        Seq::empty()
    } else {
        written_mark(marks[0]) + written_marks(marks.drop_first())
    }
}

/// Whether a tag has no attribute, or is the root's and names the namespace of
/// listings.
pub open spec fn is_root_namespace(name: Seq<u8>, namespace: Seq<u8>) -> bool {
    namespace.len() == 0 || (name == "ListBucketResult".spec_bytes()
        && document::is_known_namespace(namespace))
}

/// Whether a mark is well formed.
pub open spec fn is_mark(mark: Mark) -> bool {
    match mark {
        Mark::Declaration { text } => document::is_known_declaration(text),
        Mark::Open { name, namespace } => is_root_namespace(name, namespace),
        Mark::Empty { name, namespace, blanks } => {
            &&& is_root_namespace(name, namespace)
            &&& name.len() + namespace.len() + blanks.len() <= 254
            &&& forall|i: int|
                0 <= i < blanks.len() ==> (#[trigger] blanks[i] == 0x20 || blanks[i] == 0x09)
        },
        Mark::Close { name } => true,
        Mark::Text { piece } => piece::is_piece(piece),
    }
}

/// The names of the elements that a listing holds.
pub open spec fn is_page_name(name: Seq<u8>) -> bool {
    ||| name == "Name".spec_bytes()
    ||| name == "Prefix".spec_bytes()
    ||| name == "KeyCount".spec_bytes()
    ||| name == "MaxKeys".spec_bytes()
    ||| name == "IsTruncated".spec_bytes()
    ||| name == "ContinuationToken".spec_bytes()
    ||| name == "NextContinuationToken".spec_bytes()
    ||| name == "Contents".spec_bytes()
}

/// The names of the elements that an object of a listing holds.
pub open spec fn is_object_name(name: Seq<u8>) -> bool {
    ||| name == "Key".spec_bytes()
    ||| name == "LastModified".spec_bytes()
    ||| name == "ETag".spec_bytes()
    ||| name == "Size".spec_bytes()
    ||| name == "StorageClass".spec_bytes()
}

/// Whether an element may stand in those that are open.
pub open spec fn may_stand(open: Seq<Seq<u8>>, name: Seq<u8>) -> bool {
    if open.len() == 0 {
        name == "ListBucketResult".spec_bytes()
    } else {
        ||| open.last() == "ListBucketResult".spec_bytes() && is_page_name(name)
        ||| open.last() == "Contents".spec_bytes() && is_object_name(name)
    }
}

/// Whether a text is white space.
pub open spec fn is_space(text: Seq<u8>) -> bool {
    forall|i: int|
        0 <= i < text.len() ==> (#[trigger] text[i] == 0x20 || text[i] == 0x09 || text[i] == 0x0a
            || text[i] == 0x0c || text[i] == 0x0d)
}

/// Whether only white space may stand in the elements that are open.
pub open spec fn holds_elements(open: Seq<Seq<u8>>) -> bool {
    open.len() == 0 || open.last() == "ListBucketResult".spec_bytes() || open.last()
        == "Contents".spec_bytes()
}

/// Whether marks complete the elements that are open: elements stand where they
/// may, end with their own names, and only elements of fields hold text; there is
/// one root, and only white space stands outside it.
pub open spec fn nests(open: Seq<Seq<u8>>, marks: Seq<Mark>, closed: bool) -> bool
    decreases marks.len(),
{
    if marks.len() == 0 {
        open.len() == 0 && closed
    } else {
        let rest = marks.drop_first();
        match marks[0] {
            Mark::Declaration { .. } => nests(open, rest, closed),
            Mark::Open { name, .. } => !closed && may_stand(open, name) && nests(
                open.push(name),
                rest,
                closed,
            ),
            Mark::Empty { name, .. } => !closed && may_stand(open, name) && nests(
                open,
                rest,
                open.len() == 0,
            ),
            Mark::Close { name } => open.len() > 0 && open.last() == name && nests(
                open.drop_last(),
                rest,
                closed || name == "ListBucketResult".spec_bytes(),
            ),
            Mark::Text { piece } => (holds_elements(open) ==> is_space(piece::piece_text(piece)))
                && nests(open, rest, closed),
        }
    }
}

/// How many events marks are: an empty element is two.
pub open spec fn weight(marks: Seq<Mark>) -> int
    decreases marks.len(),
{
    if marks.len() == 0 {
        0
    } else {
        weight(marks.drop_first()) + (if marks[0] is Empty {
            2int
        } else {
            1int
        })
    }
}

/// How many bytes of text marks are.
pub open spec fn text_weight(marks: Seq<Mark>) -> int
    decreases marks.len(),
{
    if marks.len() == 0 {
        0
    } else {
        text_weight(marks.drop_first()) + (match marks[0] {
            Mark::Text { piece } => piece::piece_text(piece).len() as int,
            _ => 0,
        })
    }
}

/// What a mark is read as.
spec fn token_of(mark: Mark) -> xml::TokenModel {
    match mark {
        Mark::Declaration { .. } => xml::TokenModel::Declaration,
        Mark::Open { name, namespace } => xml::TokenModel::Start {
            name,
            attributes: if namespace.len() == 0 {
                0
            } else {
                1
            },
            self_closing: false,
        },
        Mark::Empty { name, namespace, .. } => xml::TokenModel::Start {
            name,
            attributes: if namespace.len() == 0 {
                0
            } else {
                1
            },
            self_closing: true,
        },
        Mark::Close { name } => xml::TokenModel::End { name },
        Mark::Text { piece } => xml::TokenModel::Text { text: piece::piece_text(piece) },
    }
}

proof fn lemma_first_bytes(rest: Seq<u8>)
    ensures
        bytes::starts_with(rest, "</".spec_bytes()) ==> rest.len() >= 2 && rest[0] == 0x3c && rest[1]
            == 0x2f,
        bytes::starts_with(rest, "<".spec_bytes()) <==> rest.len() >= 1 && rest[0] == 0x3c,
        bytes::starts_with(rest, "&".spec_bytes()) <==> rest.len() >= 1 && rest[0] == 0x26,
{
    reveal_strlit("</");
    is_ascii_chars_encode_utf8("</"@);
    reveal_strlit("<");
    is_ascii_chars_encode_utf8("<"@);
    reveal_strlit("&");
    is_ascii_chars_encode_utf8("&"@);
    if bytes::starts_with(rest, "</".spec_bytes()) {
        assert(rest.subrange(0, 2)[0] == 0x3c && rest.subrange(0, 2)[1] == 0x2f);
    }
    if rest.len() >= 1 {
        assert(rest.subrange(0, 1) =~= seq![rest[0]]);
        assert("<".spec_bytes() =~= seq![0x3cu8]);
        assert("&".spec_bytes() =~= seq![0x26u8]);
        if bytes::starts_with(rest, "<".spec_bytes()) {
            assert(rest.subrange(0, 1)[0] == 0x3c);
        }
        if bytes::starts_with(rest, "&".spec_bytes()) {
            assert(rest.subrange(0, 1)[0] == 0x26);
        }
    }
}

/// An end tag that is read is a mark.
proof fn lemma_close(rest: Seq<u8>) -> (mark: Mark)
    requires
        rest.len() >= 2,
        rest[0] == 0x3c,
        rest[1] == 0x2f,
        xml::end_at(rest) is Ok,
    ensures
        is_mark(mark),
        mark is Close,
        xml::end_at(rest)->Ok_0 == (token_of(mark), written_mark(mark).len() as int),
        bytes::before(rest, written_mark(mark).len() as int) == written_mark(mark),
        written_mark(mark).len() <= rest.len(),
{
    let end_byte = '>' as u8;
    assert(end_byte == 0x3e);
    bytes::lemma_first_byte(rest, end_byte);
    let end = bytes::first_index(rest, seq![end_byte])->0;
    let name = rest.subrange(2, end);
    let mark = Mark::Close { name };
    assert(bytes::before(rest, end + 1) =~= written_mark(mark));
    mark
}

/// A start tag that is read is a mark.
proof fn lemma_open(rest: Seq<u8>) -> (mark: Mark)
    requires
        rest.len() >= 1,
        rest[0] == 0x3c,
        xml::start_at(rest) is Ok,
    ensures
        is_mark(mark),
        mark is Open || mark is Empty,
        xml::start_at(rest)->Ok_0 == (token_of(mark), written_mark(mark).len() as int),
        bytes::before(rest, written_mark(mark).len() as int) == written_mark(mark),
        written_mark(mark).len() <= rest.len(),
{
    let end_byte = '>' as u8;
    assert(end_byte == 0x3e);
    let slash = '/' as u8;
    assert(slash == 0x2f);
    bytes::lemma_first_byte(rest, end_byte);
    let end = bytes::first_index(rest, seq![end_byte])->0;
    assert(end >= 1);
    let inner = rest.subrange(1, end);
    let content = xml::tag_content(inner);
    let name = xml::tag_name(content);
    let namespace = xml::tag_attributes(content);
    bytes::lemma_span(content, |b: u8| xml::is_not_whitespace(b));
    assert(content =~= name + namespace);
    if inner.len() > 0 && inner.last() == slash {
        let p = |b: u8| bytes::is_blank(b);
        let most = inner.drop_last();
        bytes::lemma_trim_end_cuts(most, p);
        let blanks = bytes::after(most, content.len() as int);
        let mark = Mark::Empty { name, namespace, blanks };
        assert(inner =~= content + blanks + seq![0x2fu8]);
        assert(bytes::before(rest, end + 1) =~= seq![0x3cu8] + inner + seq![0x3eu8]);
        assert(seq![0x3cu8] + inner + seq![0x3eu8] =~= written_mark(mark));
        assert forall|i: int| 0 <= i < blanks.len() implies (#[trigger] blanks[i] == 0x20
            || blanks[i] == 0x09) by {
            assert(p(blanks[i]));
        }
        mark
    } else {
        let mark = Mark::Open { name, namespace };
        assert(bytes::before(rest, end + 1) =~= written_mark(mark));
        mark
    }
}

/// A reference that is read is a mark.
proof fn lemma_reference(rest: Seq<u8>) -> (mark: Mark)
    requires
        rest.len() >= 1,
        rest[0] == 0x26,
        xml::reference_at(rest) is Ok,
    ensures
        is_mark(mark),
        mark is Text,
        xml::reference_at(rest)->Ok_0 == (token_of(mark), written_mark(mark).len() as int),
        bytes::before(rest, written_mark(mark).len() as int) == written_mark(mark),
        written_mark(mark).len() <= rest.len(),
{
    let end_byte = ';' as u8;
    assert(end_byte == 0x3b);
    bytes::lemma_first_byte(rest, end_byte);
    let end = bytes::first_index(rest, seq![end_byte])->0;
    let name = rest.subrange(1, end);
    let scalar = xml::referred(name)->0;
    piece::law_references_stand_for_characters(name, scalar);
    let mark = Mark::Text { piece: Piece::Reference { name, scalar } };
    assert(bytes::before(rest, end + 1) =~= written_mark(mark));
    mark
}

/// A text that is read is a mark.
proof fn lemma_text(rest: Seq<u8>) -> (mark: Mark)
    requires
        rest.len() >= 1,
        rest[0] != 0x3c,
        rest[0] != 0x26,
        xml::text_at(rest) is Ok,
    ensures
        is_mark(mark),
        mark is Text,
        xml::text_at(rest)->Ok_0 == (token_of(mark), written_mark(mark).len() as int),
        bytes::before(rest, written_mark(mark).len() as int) == written_mark(mark),
        written_mark(mark).len() <= rest.len(),
{
    reveal_strlit("]]>");
    is_ascii_chars_encode_utf8("]]>"@);
    let p = |b: u8| xml::is_text_byte(b);
    bytes::lemma_span(rest, p);
    let n = bytes::span(rest, p);
    let text = bytes::before(rest, n);
    assert(p(rest[0]));
    assert(n > 0);
    assert forall|i: int| 0 <= i < text.len() implies #[trigger] text[i] != 0x3c && text[i] != 0x26 by {
        assert(p(text[i]));
    }
    assert forall|i: int| 0 <= i < text.len() - 2 implies !(#[trigger] text[i] == 0x5d && text[i + 1]
        == 0x5d && text[i + 2] == 0x3e) by {
        if text[i] == 0x5d && text[i + 1] == 0x5d && text[i + 2] == 0x3e {
            assert(text.subrange(i, i + 3) =~= "]]>".spec_bytes());
            assert(bytes::occurs_at(text, "]]>".spec_bytes(), i));
        }
    }
    Mark::Text { piece: Piece::Plain { text } }
}

/// Whatever is read is a mark.
proof fn lemma_token(rest: Seq<u8>, cursor: int) -> (mark: Mark)
    requires
        rest.len() > 0,
        xml::token_at(rest, cursor) is Ok,
    ensures
        is_mark(mark),
        mark is Declaration ==> cursor == 0,
        xml::token_at(rest, cursor)->Ok_0 == (token_of(mark), written_mark(mark).len() as int),
        0 < written_mark(mark).len() <= rest.len(),
        bytes::before(rest, written_mark(mark).len() as int) == written_mark(mark),
{
    xml::lemma_token_length(rest, cursor);
    lemma_first_bytes(rest);
    if bytes::starts_with(rest, "<?xml".spec_bytes()) {
        let end = bytes::first_index(rest, "?>".spec_bytes())->0;
        let text = bytes::before(rest, end + 2);
        Mark::Declaration { text }
    } else if bytes::starts_with(rest, "</".spec_bytes()) {
        lemma_close(rest)
    } else if bytes::starts_with(rest, "<".spec_bytes()) {
        lemma_open(rest)
    } else if bytes::starts_with(rest, "&".spec_bytes()) {
        lemma_reference(rest)
    } else {
        lemma_text(rest)
    }
}

/// The names of the elements that are open.
spec fn names(stack: Seq<Element>) -> Seq<Seq<u8>> {
    Seq::new(stack.len(), |i: int| element::element_name(stack[i]))
}

/// An element that is opened may stand where it does.
proof fn lemma_start_stands(page: list::PageState, name: Seq<u8>, attributes: int)
    requires
        list::with_start(page, name, attributes) is Ok,
    ensures
        !page.root_closed,
        may_stand(names(page.stack), name),
        ({
            let next = list::with_start(page, name, attributes)->Ok_0;
            &&& names(next.stack) == names(page.stack).push(name)
            &&& next.stack.drop_last() == page.stack
            &&& next.stack.len() > 0
            &&& page.stack.len() == 0 <==> next.stack.last() == Element::Root
            &&& !next.root_closed
            &&& next.events == page.events
            &&& next.total_text_bytes == page.total_text_bytes
        }),
{
    let parent = list::open_element(page);
    let element = element::child(parent, name)->Ok_0;
    assert(element::is_child(parent, element) && element::element_name(element) == name);
    let next = list::with_start(page, name, attributes)->Ok_0;
    assert(next.stack == page.stack.push(element));
    assert(names(next.stack) =~= names(page.stack).push(name));
    assert(next.stack.drop_last() =~= page.stack);
    if page.stack.len() > 0 {
        assert(names(page.stack).last() == element::element_name(page.stack.last()));
    }
}

/// An element that is closed leaves the others open.
proof fn lemma_end_closes(page: list::PageState, name: Seq<u8>)
    requires
        list::with_end(page, name) is Ok,
    ensures
        page.stack.len() > 0,
        element::element_name(page.stack.last()) == name,
        ({
            let next = list::with_end(page, name)->Ok_0;
            &&& next.stack == page.stack.drop_last()
            &&& names(next.stack) == names(page.stack).drop_last()
            &&& names(page.stack).last() == name
            &&& next.root_closed == (page.root_closed || page.stack.last() == Element::Root)
            &&& page.stack.last() == Element::Root <==> name == "ListBucketResult".spec_bytes()
            &&& next.events == page.events
            &&& next.total_text_bytes == page.total_text_bytes
        }),
{
    let element = page.stack.last();
    if element::element_name(element) == element::element_name(Element::Root) {
        element::lemma_names_differ(element, Element::Root);
    }
    let popped = list::PageState { stack: page.stack.drop_last(), text: Seq::empty(), ..page };
    assert(names(popped.stack) =~= names(page.stack).drop_last());
}

/// A text that is read may stand where it does.
proof fn lemma_text_stands(page: list::PageState, text: Seq<u8>)
    requires
        list::with_text(page, text) is Ok,
    ensures
        holds_elements(names(page.stack)) ==> is_space(text),
        ({
            let next = list::with_text(page, text)->Ok_0;
            &&& next.stack == page.stack
            &&& next.root_closed == page.root_closed
            &&& next.events == page.events
            &&& next.total_text_bytes == page.total_text_bytes + text.len()
            &&& next.total_text_bytes <= 3_145_728
        }),
{
    if page.stack.len() > 0 {
        let element = page.stack.last();
        assert(names(page.stack).last() == element::element_name(element));
        if element::element_name(element) == element::element_name(Element::Root) {
            element::lemma_names_differ(element, Element::Root);
        }
        if element::element_name(element) == element::element_name(Element::Contents) {
            element::lemma_names_differ(element, Element::Contents);
        }
    }
    if holds_elements(names(page.stack)) {
        assert forall|i: int| 0 <= i < text.len() implies (#[trigger] text[i] == 0x20 || text[i]
            == 0x09 || text[i] == 0x0a || text[i] == 0x0c || text[i] == 0x0d) by {
            assert(bytes::is_whitespace(text[i]));
        }
    }
}

/// Whatever is read to its end is made of marks.
proof fn lemma_read_is_marked(page: list::PageState, rest: Seq<u8>, cursor: int) -> (marks: Seq<Mark>)
    requires
        list::read(page, rest, cursor) is Ok,
        list::read(page, rest, cursor)->Ok_0.stack.len() == 0,
        list::read(page, rest, cursor)->Ok_0.root_closed,
        0 <= cursor,
    ensures
        rest == written_marks(marks),
        nests(names(page.stack), marks, page.root_closed),
        forall|i: int| 0 <= i < marks.len() ==> is_mark(#[trigger] marks[i]),
        forall|i: int|
            0 <= i < marks.len() ==> (#[trigger] marks[i] is Declaration ==> i == 0 && cursor == 0),
        weight(marks) > 0 ==> page.events + weight(marks) <= 32768,
        text_weight(marks) > 0 ==> page.total_text_bytes + text_weight(marks) <= 3_145_728,
        weight(marks) >= marks.len(),
        text_weight(marks) >= 0,
    decreases rest.len(),
{
    reveal(list::read);
    if rest.len() == 0 {
        assert(rest =~= Seq::<u8>::empty());
        assert(names(page.stack) =~= Seq::<Seq<u8>>::empty());
        Seq::empty()
    } else {
        let (next, length) = list::step(page, rest, cursor)->Ok_0;
        let mark = lemma_token(rest, cursor);
        xml::lemma_token_length(rest, cursor);
        let tail = bytes::after(rest, length);
        let others = lemma_read_is_marked(next, tail, cursor + length);
        let marks = seq![mark] + others;
        let counted = list::with_event(page)->Ok_0;
        assert(marks.drop_first() =~= others);
        assert(rest =~= bytes::before(rest, length) + tail);
        assert forall|i: int| 0 <= i < marks.len() implies is_mark(#[trigger] marks[i]) by {
            if i > 0 {
                assert(is_mark(others[i - 1]));
            }
        }
        assert forall|i: int| 0 <= i < marks.len() implies (#[trigger] marks[i] is Declaration
            ==> i == 0 && cursor == 0) by {
            if i > 0 {
                assert(others[i - 1] is Declaration ==> i - 1 == 0 && cursor + length == 0);
            }
        }
        lemma_step_nests(counted, mark, next);
        marks
    }
}

/// What a mark does to the elements that are open.
proof fn lemma_step_nests(page: list::PageState, mark: Mark, next: list::PageState)
    requires
        list::with_token(page, token_of(mark)) == Ok::<list::PageState, HttpError>(next),
        is_mark(mark),
        page.events <= 32768,
    ensures
        match mark {
            Mark::Declaration { .. } => next == page,
            Mark::Open { name, .. } => !page.root_closed && may_stand(names(page.stack), name)
                && names(next.stack) == names(page.stack).push(name) && !next.root_closed,
            Mark::Empty { name, .. } => !page.root_closed && may_stand(names(page.stack), name)
                && names(next.stack) == names(page.stack) && next.root_closed == (
            page.stack.len() == 0),
            Mark::Close { name } => page.stack.len() > 0 && names(page.stack).last() == name
                && names(next.stack) == names(page.stack).drop_last() && next.root_closed == (
            page.root_closed || name == "ListBucketResult".spec_bytes()),
            Mark::Text { piece } => (holds_elements(names(page.stack)) ==> is_space(
                piece::piece_text(piece),
            )) && next.stack == page.stack && next.root_closed == page.root_closed,
        },
        next.events == page.events + (if mark is Empty {
            1int
        } else {
            0int
        }),
        next.events <= 32768,
        next.total_text_bytes == page.total_text_bytes + (match mark {
            Mark::Text { piece } => piece::piece_text(piece).len() as int,
            _ => 0,
        }),
        mark is Text ==> next.total_text_bytes <= 3_145_728,
{
    match mark {
        Mark::Declaration { .. } => {},
        Mark::Open { name, namespace } => {
            lemma_start_stands(page, name, token_of(mark)->attributes);
        },
        Mark::Empty { name, namespace, .. } => {
            let attributes = token_of(mark)->attributes;
            lemma_start_stands(page, name, attributes);
            let started = list::with_start(page, name, attributes)->Ok_0;
            let counted = list::with_event(started)->Ok_0;
            lemma_end_closes(counted, name);
            assert(names(next.stack) =~= names(page.stack));
        },
        Mark::Close { name } => {
            lemma_end_closes(page, name);
        },
        Mark::Text { piece } => {
            lemma_text_stands(page, piece::piece_text(piece));
        },
    }
}

/// Only listings are read: a document that is accepted has at most 4194304 bytes,
/// 32768 events and 3145728 bytes of text; it is made of a known declaration or
/// none, known elements that nest as those of listings do, references to
/// characters, and text, which stands in the elements of fields alone. There is no
/// other markup, and only the root may name a namespace.
pub proof fn law_only_listings_are_read(
    body: Seq<u8>,
    bucket: Seq<u8>,
    prefix: Seq<u8>,
    max_keys: u32,
    token: Option<Seq<u8>>,
)
    requires
        list::page_of(body, bucket, prefix, max_keys, token) is Ok,
    ensures
        body.len() <= 4_194_304,
        document::holds_xml_characters(body),
        exists|marks: Seq<Mark>|
            {
                &&& body == #[trigger] written_marks(marks)
                &&& forall|i: int| 0 <= i < marks.len() ==> is_mark(#[trigger] marks[i])
                &&& forall|i: int|
                    0 <= i < marks.len() ==> (#[trigger] marks[i] is Declaration ==> i == 0)
                &&& nests(Seq::empty(), marks, false)
                &&& weight(marks) <= 32768
                &&& text_weight(marks) <= 3_145_728
            },
{
    let chars = decode_utf8(body);
    assert forall|i: int| 0 <= i < chars.len() implies piece::is_xml_character(
        #[trigger] chars[i] as u32,
    ) by {
        assert(xml::is_xml_scalar(chars[i] as u32));
    }
    let marks = lemma_read_is_marked(list::empty_page(), body, 0);
    assert(names(list::empty_page().stack) =~= Seq::<Seq<u8>>::empty());
    assert(body == written_marks(marks));
}

/// A body of more than 4194304 bytes is refused for its size, and one that is not
/// UTF-8, or holds a character that may not stand in an XML document, as
/// malformed, whatever else it holds.
pub proof fn law_unreadable_bodies_are_refused(
    body: Seq<u8>,
    bucket: Seq<u8>,
    prefix: Seq<u8>,
    max_keys: u32,
    token: Option<Seq<u8>>,
)
    ensures
        body.len() > 4_194_304 ==> {
            &&& list::page_of(body, bucket, prefix, max_keys, token) matches Err(error)
            &&& error.kind == HttpErrorKind::Limit
        },
        body.len() <= 4_194_304 && !document::holds_xml_characters(body) ==> {
            &&& list::page_of(body, bucket, prefix, max_keys, token) matches Err(error)
            &&& error.kind == HttpErrorKind::Protocol
        },
{
    if valid_utf8(body) && list::is_xml_text(body) {
        let chars = decode_utf8(body);
        assert forall|i: int| 0 <= i < chars.len() implies piece::is_xml_character(
            #[trigger] chars[i] as u32,
        ) by {
            assert(xml::is_xml_scalar(chars[i] as u32));
        }
    }
}

} // verus!
