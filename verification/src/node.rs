//! Fields of listings, and the fields of their objects.

use crate::bytes;
use crate::element;
use crate::element::Element;
use crate::error::HttpError;
use crate::list;
use crate::piece;
use crate::piece::Piece;
use crate::render;
use crate::xml;
use vstd::prelude::*;
use vstd::string::*;
use vstd::utf8::*;

verus! {
/// The name of an element.
pub open spec fn tag(element: Element) -> Seq<u8> {
    match element {
        Element::Root => "ListBucketResult".spec_bytes(),
        Element::Name => "Name".spec_bytes(),
        Element::Prefix => "Prefix".spec_bytes(),
        Element::KeyCount => "KeyCount".spec_bytes(),
        Element::MaxKeys => "MaxKeys".spec_bytes(),
        Element::IsTruncated => "IsTruncated".spec_bytes(),
        Element::ContinuationToken => "ContinuationToken".spec_bytes(),
        Element::NextContinuationToken => "NextContinuationToken".spec_bytes(),
        Element::Contents => "Contents".spec_bytes(),
        Element::Key => "Key".spec_bytes(),
        Element::LastModified => "LastModified".spec_bytes(),
        Element::Etag => "ETag".spec_bytes(),
        Element::Size => "Size".spec_bytes(),
        Element::StorageClass => "StorageClass".spec_bytes(),
    }
}

/// The fields of a page.
pub open spec fn is_of_page(element: Element) -> bool {
    ||| element == Element::Name
    ||| element == Element::Prefix
    ||| element == Element::KeyCount
    ||| element == Element::MaxKeys
    ||| element == Element::IsTruncated
    ||| element == Element::ContinuationToken
    ||| element == Element::NextContinuationToken
}

/// The fields of an object.
pub open spec fn is_of_object(element: Element) -> bool {
    ||| element == Element::Key
    ||| element == Element::LastModified
    ||| element == Element::Etag
    ||| element == Element::Size
    ||| element == Element::StorageClass
}

/// How many bytes of text a field may hold.
pub open spec fn most(element: Element) -> int {
    match element {
        Element::Name => 63,
        Element::Prefix => 1024,
        Element::ContinuationToken => 2048,
        Element::NextContinuationToken => 2048,
        Element::Key => 1024,
        Element::Etag => 1024,
        Element::LastModified => 128,
        Element::StorageClass => 64,
        Element::KeyCount => 20,
        Element::MaxKeys => 20,
        Element::Size => 20,
        Element::IsTruncated => 5,
        Element::Root => 0,
        Element::Contents => 0,
    }
}

pub proof fn lemma_elements(element: Element)
    ensures
        tag(element) == element::element_name(element),
        most(element) == element.text_limit(),
        is_of_page(element) ==> element::is_child(Some(Element::Root), element)
            && element.is_scalar() && list::is_page_field(element),
        is_of_object(element) ==> element::is_child(Some(Element::Contents), element)
            && element.is_scalar() && !list::is_page_field(element),
{
}

/// What a field holds: text between its tags, or none in a tag that closes
/// itself, with blanks before its slash.
pub enum Content {
    Text { pieces: Seq<Piece> },
    Empty { blanks: Seq<u8> },
}

/// A field.
pub struct Node {
    pub element: Element,
    pub content: Content,
}

/// The text of a field.
pub open spec fn node_text(node: Node) -> Seq<u8> {
    match node.content {
        Content::Text { pieces } => piece::pieces_text(pieces),
        Content::Empty { .. } => Seq::empty(),
    }
}

/// How a field is written.
pub open spec fn written_node(node: Node) -> Seq<u8> {
    match node.content {
        Content::Text { pieces } => seq![0x3cu8] + tag(node.element) + seq![0x3eu8]
            + piece::written_pieces(pieces) + seq![0x3cu8, 0x2fu8] + tag(node.element) + seq![0x3eu8],
        Content::Empty { blanks } => seq![0x3cu8] + tag(node.element) + blanks + seq![
            0x2fu8,
            0x3eu8,
        ],
    }
}

/// How many events a field takes.
pub open spec fn node_events(node: Node) -> int {
    match node.content {
        Content::Text { pieces } => 2int + pieces.len(),
        Content::Empty { .. } => 2,
    }
}

/// Whether a field is well formed, and within its limit.
pub open spec fn is_node(node: Node) -> bool {
    &&& node_text(node).len() <= most(node.element)
    &&& match node.content {
        Content::Text { pieces } => piece::are_pieces(pieces),
        Content::Empty { blanks } => tag(node.element).len() + blanks.len() <= 254 && forall|i: int|
            0 <= i < blanks.len() ==> (#[trigger] blanks[i] == 0x20 || blanks[i] == 0x09),
    }
}

/// What stands in a tag that closes itself.
spec fn empty_tag(element: Element, blanks: Seq<u8>) -> Seq<u8> {
    tag(element) + blanks + seq![0x2fu8]
}

/// A tag that closes itself ends with its first angle bracket.
proof fn lemma_empty_tag_ends(element: Element, blanks: Seq<u8>, rest: Seq<u8>)
    requires
        forall|i: int| 0 <= i < blanks.len() ==> (#[trigger] blanks[i] == 0x20 || blanks[i] == 0x09),
    ensures
        ({
            let inner = empty_tag(element, blanks);
            let s = seq![0x3cu8] + inner + seq![0x3eu8] + rest;
            &&& bytes::first_index(s, seq![0x3eu8]) == Some(1 + inner.len() as int)
            &&& s.subrange(1, 1 + inner.len() as int) == inner
        }),
{
    let name = tag(element);
    let inner = empty_tag(element, blanks);
    let opened = seq![0x3cu8] + inner;
    lemma_elements(element);
    render::lemma_element_name(element);
    assert(bytes::is_free_of(opened, 0x3e)) by {
        assert forall|i: int| 0 <= i < opened.len() implies #[trigger] opened[i] != 0x3e by {
            if 1 <= i < 1 + name.len() {
                assert(name[i - 1] != 0x3e);
            } else if 1 + name.len() <= i < 1 + name.len() + blanks.len() {
                assert(opened[i] == blanks[i - 1 - name.len()]);
            }
        }
    }
    bytes::lemma_split_first(opened, seq![0x3eu8], rest);
    assert((opened + seq![0x3eu8] + rest).subrange(1, opened.len() as int) =~= inner);
}

/// What a tag that closes itself holds.
proof fn lemma_empty_tag_content(element: Element, blanks: Seq<u8>)
    requires
        forall|i: int| 0 <= i < blanks.len() ==> (#[trigger] blanks[i] == 0x20 || blanks[i] == 0x09),
    ensures
        ({
            let inner = empty_tag(element, blanks);
            &&& inner.last() == 0x2f
            &&& xml::tag_content(inner) == tag(element)
            &&& xml::tag_name(tag(element)) == tag(element)
            &&& xml::tag_attributes(tag(element)).len() == 0
            &&& xml::is_element_name(tag(element))
        }),
{
    let name = tag(element);
    let inner = empty_tag(element, blanks);
    let p = |b: u8| xml::is_not_whitespace(b);
    lemma_elements(element);
    render::lemma_element_name(element);
    assert(inner.drop_last() =~= name + blanks);
    assert(!bytes::is_blank(name.last())) by {
        assert(p(name[name.len() - 1]));
    }
    lemma_trim_blanks(name, blanks);
    render::lemma_span_run(name, Seq::empty(), p);
    assert(name + Seq::<u8>::empty() =~= name);
    assert(bytes::before(name, name.len() as int) =~= name);
    assert(bytes::after(name, name.len() as int) =~= Seq::<u8>::empty());
}

/// A tag that closes itself is one token.
proof fn lemma_empty_token(element: Element, blanks: Seq<u8>, rest: Seq<u8>, cursor: int)
    requires
        tag(element).len() + blanks.len() <= 254,
        forall|i: int| 0 <= i < blanks.len() ==> (#[trigger] blanks[i] == 0x20 || blanks[i] == 0x09),
    ensures
        ({
            let written = seq![0x3cu8] + tag(element) + blanks + seq![0x2fu8, 0x3eu8];
            xml::token_at(written + rest, cursor) == Ok::<(xml::TokenModel, int), HttpError>(
                (
                    xml::TokenModel::Start {
                        name: element::element_name(element),
                        attributes: 0,
                        self_closing: true,
                    },
                    written.len() as int,
                ),
            )
        }),
{
    let name = tag(element);
    let inner = empty_tag(element, blanks);
    let written = seq![0x3cu8] + name + blanks + seq![0x2fu8, 0x3eu8];
    let s = written + rest;
    let close = '>' as u8;
    assert(close == 0x3e);
    lemma_elements(element);
    render::lemma_element_name(element);
    assert(written =~= seq![0x3cu8] + inner + seq![0x3eu8]);
    assert(s[0] == 0x3c);
    assert(s[1] == name[0]);
    render::lemma_first_bytes(s);
    lemma_empty_tag_ends(element, blanks, rest);
    lemma_empty_tag_content(element, blanks);
    assert(xml::token_at(s, cursor) == xml::start_at(s));
}

proof fn lemma_trim_blanks(name: Seq<u8>, blanks: Seq<u8>)
    requires
        name.len() > 0,
        !bytes::is_blank(name.last()),
        forall|i: int| 0 <= i < blanks.len() ==> (#[trigger] blanks[i] == 0x20 || blanks[i] == 0x09),
    ensures
        bytes::trim_end(name + blanks, |b: u8| bytes::is_blank(b)) == name,
    decreases blanks.len(),
{
    let s = name + blanks;
    if blanks.len() == 0 {
        assert(s =~= name);
    } else {
        assert(s.last() == blanks[blanks.len() - 1]);
        assert(s.drop_last() =~= name + blanks.drop_last());
        lemma_trim_blanks(name, blanks.drop_last());
    }
}

/// The page after a field, apart from what the field says.
pub open spec fn after_node(page: list::PageState, node: Node) -> list::PageState {
    list::PageState { text: Seq::empty(), ..piece::tallied(page, node_text(node), node_events(node)) }
}

/// The page in which a field is open.
spec fn opened_page(page: list::PageState, element: Element) -> list::PageState {
    list::PageState {
        stack: page.stack.push(element),
        text: Seq::empty(),
        ..render::counted(page)
    }
}

/// A field may be opened where it may stand.
proof fn lemma_field_opens(page: list::PageState, element: Element)
    requires
        !page.root_closed,
        element::is_child(list::open_element(page), element),
        element.is_scalar(),
        page.stack.len() < 3,
    ensures
        list::with_start(render::counted(page), element::element_name(element), 0) == Ok::<
            list::PageState,
            HttpError,
        >(opened_page(page, element)),
        opened_page(page, element).stack.drop_last() == page.stack,
        list::open_element(opened_page(page, element)) == Some(element),
{
    element::lemma_child(list::open_element(page), element);
    assert(list::open_element(render::counted(page)) == list::open_element(page));
    assert(page.stack.push(element).drop_last() =~= page.stack);
}

/// A field with tags around its text is read.
proof fn lemma_text_node_reads(
    page: list::PageState,
    element: Element,
    pieces: Seq<Piece>,
    rest: Seq<u8>,
    cursor: int,
)
    requires
        piece::are_pieces(pieces),
        piece::pieces_text(pieces).len() <= most(element),
        !page.root_closed,
        element::is_child(list::open_element(page), element),
        element.is_scalar(),
        page.stack.len() < 3,
        0 <= page.events,
        page.events + 2 + pieces.len() <= 32768,
        0 <= page.total_text_bytes,
        page.total_text_bytes + piece::pieces_text(pieces).len() <= 3_145_728,
    ensures
        ({
            let node = Node { element, content: Content::Text { pieces } };
            list::read(page, written_node(node) + rest, cursor) == (match list::with_scalar(
                after_node(page, node),
                element,
                piece::pieces_text(pieces),
            ) {
                Ok(next) => list::read(next, rest, cursor + written_node(node).len()),
                Err(error) => Err(error),
            })
        }),
{
    let node = Node { element, content: Content::Text { pieces } };
    let name = element::element_name(element);
    let started = opened_page(page, element);
    let text = piece::pieces_text(pieces);
    let closing = render::end_tag(element) + rest;
    let s = written_node(node) + rest;
    lemma_elements(element);
    lemma_field_opens(page, element);
    assert(s =~= render::start_tag(element) + (piece::written_pieces(pieces) + closing));
    render::lemma_start_reads(page, element, piece::written_pieces(pieces) + closing, cursor);
    assert(closing[0] == 0x3c);
    let opened = cursor + render::start_tag(element).len();
    piece::lemma_text_reads(started, pieces, closing, opened);
    let filled = list::PageState {
        text: started.text + text,
        ..piece::tallied(started, text, pieces.len() as int)
    };
    assert(started.text + text =~= text);
    render::lemma_end_reads(filled, element, rest, opened + piece::written_pieces(pieces).len());
    assert(list::open_element(render::counted(filled)) == Some(element));
    let popped = list::PageState {
        stack: filled.stack.drop_last(),
        text: Seq::empty(),
        ..render::counted(filled)
    };
    assert(popped == after_node(page, node));
    assert(list::with_end(render::counted(filled), name) == list::with_scalar(
        popped,
        element,
        text,
    ));
    assert(written_node(node).len() == render::start_tag(element).len() + piece::written_pieces(
        pieces,
    ).len() + render::end_tag(element).len());
}

/// A field in a tag that closes itself is read.
proof fn lemma_empty_node_reads(
    page: list::PageState,
    element: Element,
    blanks: Seq<u8>,
    rest: Seq<u8>,
    cursor: int,
)
    requires
        tag(element).len() + blanks.len() <= 254,
        forall|i: int| 0 <= i < blanks.len() ==> (#[trigger] blanks[i] == 0x20 || blanks[i] == 0x09),
        !page.root_closed,
        element::is_child(list::open_element(page), element),
        element.is_scalar(),
        page.stack.len() < 3,
        0 <= page.events,
        page.events + 2 <= 32768,
    ensures
        ({
            let node = Node { element, content: Content::Empty { blanks } };
            list::read(page, written_node(node) + rest, cursor) == (match list::with_scalar(
                after_node(page, node),
                element,
                Seq::empty(),
            ) {
                Ok(next) => list::read(next, rest, cursor + written_node(node).len()),
                Err(error) => Err(error),
            })
        }),
{
    let node = Node { element, content: Content::Empty { blanks } };
    let name = element::element_name(element);
    let started = opened_page(page, element);
    let written = written_node(node);
    let s = written + rest;
    lemma_elements(element);
    lemma_field_opens(page, element);
    lemma_empty_token(element, blanks, rest, cursor);
    reveal(list::read);
    assert(list::with_event(page) == Ok::<list::PageState, HttpError>(render::counted(page)));
    let twice = list::PageState { events: page.events + 2, ..started };
    assert(list::with_event(started) == Ok::<list::PageState, HttpError>(twice));
    assert(bytes::after(s, written.len() as int) =~= rest);
    assert(list::open_element(twice) == Some(element));
    let popped = list::PageState {
        stack: twice.stack.drop_last(),
        text: Seq::empty(),
        ..twice
    };
    assert(popped == after_node(page, node));
    assert(list::with_end(twice, name) == list::with_scalar(popped, element, Seq::empty()));
}

/// A field is read.
pub proof fn lemma_node_reads(page: list::PageState, node: Node, rest: Seq<u8>, cursor: int)
    requires
        is_node(node),
        !page.root_closed,
        element::is_child(list::open_element(page), node.element),
        node.element.is_scalar(),
        page.stack.len() < 3,
        0 <= page.events,
        page.events + node_events(node) <= 32768,
        0 <= page.total_text_bytes,
        page.total_text_bytes + node_text(node).len() <= 3_145_728,
    ensures
        list::read(page, written_node(node) + rest, cursor) == (match list::with_scalar(
            after_node(page, node),
            node.element,
            node_text(node),
        ) {
            Ok(next) => list::read(next, rest, cursor + written_node(node).len()),
            Err(error) => Err(error),
        }),
{
    match node.content {
        Content::Text { pieces } => {
            lemma_text_node_reads(page, node.element, pieces, rest, cursor);
        },
        Content::Empty { blanks } => {
            lemma_empty_node_reads(page, node.element, blanks, rest, cursor);
        },
    }
}

/// A field of an object, behind the blanks before it.
pub struct FieldEntry {
    pub gap: Seq<Piece>,
    pub node: Node,
}

/// How fields are written.
pub open spec fn written_entries(entries: Seq<FieldEntry>) -> Seq<u8>
    decreases entries.len(),
{
    if entries.len() == 0 {
        Seq::empty()
    } else {
        piece::written_pieces(entries[0].gap) + written_node(entries[0].node) + written_entries(
            entries.drop_first(),
        )
    }
}

/// How many events fields take.
pub open spec fn entries_events(entries: Seq<FieldEntry>) -> int
    decreases entries.len(),
{
    if entries.len() == 0 {
        0
    } else {
        entries[0].gap.len() + node_events(entries[0].node) + entries_events(entries.drop_first())
    }
}

/// How many bytes of text fields and the blanks before them hold.
pub open spec fn entries_bytes(entries: Seq<FieldEntry>) -> int
    decreases entries.len(),
{
    if entries.len() == 0 {
        0
    } else {
        piece::pieces_text(entries[0].gap).len() + node_text(entries[0].node).len() + entries_bytes(
            entries.drop_first(),
        )
    }
}

/// Whether fields are well formed fields of an object.
pub open spec fn are_entries(entries: Seq<FieldEntry>) -> bool {
    forall|i: int|
        0 <= i < entries.len() ==> {
            let entry = #[trigger] entries[i];
            piece::are_blank(entry.gap) && is_node(entry.node) && is_of_object(entry.node.element)
        }
}

/// The texts of the fields of one kind.
pub open spec fn entry_texts(entries: Seq<FieldEntry>, element: Element) -> Seq<Seq<u8>>
    decreases entries.len(),
{
    if entries.len() == 0 {
        Seq::empty()
    } else if entries[0].node.element == element {
        seq![node_text(entries[0].node)] + entry_texts(entries.drop_first(), element)
    } else {
        entry_texts(entries.drop_first(), element)
    }
}

/// The page after fields of an object were read.
pub open spec fn after_entries(page: list::PageState, entries: Seq<FieldEntry>) -> Result<
    list::PageState,
    HttpError,
>
    decreases entries.len(),
{
    if entries.len() == 0 {
        Ok(page)
    } else {
        let gap = entries[0].gap;
        let node = entries[0].node;
        match list::with_scalar(
            after_node(piece::tallied(page, piece::pieces_text(gap), gap.len() as int), node),
            node.element,
            node_text(node),
        ) {
            Ok(next) => after_entries(next, entries.drop_first()),
            Err(error) => Err(error),
        }
    }
}

pub proof fn lemma_entries_are_natural(entries: Seq<FieldEntry>)
    ensures
        0 <= entries_events(entries),
        0 <= entries_bytes(entries),
    decreases entries.len(),
{
    if entries.len() > 0 {
        lemma_entries_are_natural(entries.drop_first());
    }
}

pub proof fn lemma_entries_tail(entries: Seq<FieldEntry>)
    requires
        are_entries(entries),
        entries.len() > 0,
    ensures
        are_entries(entries.drop_first()),
        piece::are_blank(entries[0].gap),
        is_node(entries[0].node),
        is_of_object(entries[0].node.element),
{
    let tail = entries.drop_first();
    assert forall|i: int| 0 <= i < tail.len() implies {
        let entry = #[trigger] tail[i];
        piece::are_blank(entry.gap) && is_node(entry.node) && is_of_object(entry.node.element)
    } by {
        let entry = entries[i + 1];
        assert(piece::are_blank(entry.gap));
    }
    let entry = entries[0];
    assert(piece::are_blank(entry.gap));
}

/// Texts in a row, taken together in another way.
pub proof fn lemma_regrouped(a: Seq<u8>, b: Seq<u8>, c: Seq<u8>, d: Seq<u8>)
    ensures
        (a + b + c) + d == a + (b + (c + d)),
        (a + b + c).len() == a.len() + b.len() + c.len(),
{
    assert((a + b + c) + d =~= a + (b + (c + d)));
}

/// Fields of an object are read, with the blanks between them.
pub proof fn lemma_entries_read(
    page: list::PageState,
    entries: Seq<FieldEntry>,
    rest: Seq<u8>,
    cursor: int,
)
    requires
        are_entries(entries),
        !page.root_closed,
        page.stack == seq![Element::Root, Element::Contents],
        0 <= page.events,
        page.events + entries_events(entries) <= 32768,
        0 <= page.total_text_bytes,
        page.total_text_bytes + entries_bytes(entries) <= 3_145_728,
        rest.len() > 0,
    ensures
        list::read(page, written_entries(entries) + rest, cursor) == (match after_entries(
            page,
            entries,
        ) {
            Ok(next) => list::read(next, rest, cursor + written_entries(entries).len()),
            Err(error) => Err(error),
        }),
        after_entries(page, entries) matches Ok(next) ==> {
            &&& next.stack == page.stack
            &&& next.root_closed == page.root_closed
            &&& next.events == page.events + entries_events(entries)
            &&& next.total_text_bytes == page.total_text_bytes + entries_bytes(entries)
        },
    decreases entries.len(),
{
    if entries.len() == 0 {
        assert(written_entries(entries) + rest =~= rest);
    } else {
        let gap = entries[0].gap;
        let node = entries[0].node;
        let tail = entries.drop_first();
        let behind = written_entries(tail) + rest;
        lemma_entries_tail(entries);
        lemma_entries_are_natural(tail);
        lemma_elements(node.element);
        lemma_regrouped(piece::written_pieces(gap), written_node(node), written_entries(tail), rest);
        assert((written_node(node) + behind)[0] == 0x3c);
        piece::lemma_blanks_read(page, gap, written_node(node) + behind, cursor);
        let passed = piece::tallied(page, piece::pieces_text(gap), gap.len() as int);
        assert(list::open_element(passed) == Some(Element::Contents));
        let opened = cursor + piece::written_pieces(gap).len();
        lemma_node_reads(passed, node, behind, opened);
        let base = after_node(passed, node);
        if let Ok(next) = list::with_scalar(base, node.element, node_text(node)) {
            assert(next.stack == page.stack);
            lemma_entries_read(next, tail, rest, opened + written_node(node).len());
        }
    }
}

} // verus!
