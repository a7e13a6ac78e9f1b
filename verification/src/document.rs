//! Listings as servers write them, and what they are read as.

use crate::bytes;
use crate::element;
use crate::element::Element;
use crate::error::HttpError;
use crate::list;
use crate::node;
use crate::node::{FieldEntry, Node};
use crate::number;
use crate::piece;
use crate::piece::Piece;
use crate::render;
use crate::xml;
use vstd::prelude::*;
use vstd::string::*;
use vstd::utf8::*;

verus! {
/// Whether a text is the decimal notation of a number of at most `max`.
spec fn is_number(text: Seq<u8>, max: nat) -> bool {
    exists|n: nat| n <= max && text == #[trigger] number::decimal(n)
}

proof fn lemma_number(text: Seq<u8>, max: nat)
    requires
        max <= u64::MAX,
    ensures
        list::field_number(text, max) is Ok <==> is_number(text, max),
        list::field_number(text, max) matches Ok(n) ==> n <= max && text == number::decimal(n),
{
    let zero = '0' as u8;
    assert(zero == 0x30);
    if let Ok(n) = list::field_number(text, max) {
        assert forall|i: int| 0 <= i < text.len() implies number::is_radix_digit(
            #[trigger] text[i],
            10,
        ) by {
            assert(bytes::is_digit(text[i]));
        }
        assert(number::parsed(text, 10, max) == Some(n));
        number::law_written_numbers_are_read(text, 10, n, max);
        number::law_decimals_are_canonical(text, n);
    }
    if is_number(text, max) {
        let n = choose|n: nat| n <= max && text == #[trigger] number::decimal(n);
        render::lemma_number_reads(n, max);
    }
}

/// The number that a text writes, in decimal notation.
proof fn lemma_decimals_differ(n: nat, m: nat)
    requires
        number::decimal(n) == number::decimal(m),
    ensures
        n == m,
{
    number::law_decimals_are_canonical(number::decimal(n), n);
    number::law_decimals_are_canonical(number::decimal(m), m);
    number::lemma_writes_one_number(number::decimal(n), 10, n, m);
}

/// The text that was read of an object's field, where it is kept.
spec fn object_slot(object: list::PartialObject, element: Element) -> Option<Seq<u8>> {
    match element {
        Element::Key => object.key,
        Element::Size => match object.size {
            Some(n) => Some(number::decimal(n as nat)),
            None => None,
        },
        Element::Etag => object.etag,
        Element::LastModified => object.last_modified,
        _ => None,
    }
}

/// Whether an object's field was not read yet.
spec fn is_open(object: list::PartialObject, element: Element) -> bool {
    if element == Element::StorageClass {
        !object.storage_class_seen
    } else {
        object_slot(object, element) is None
    }
}

/// Whether a text is good for an object's field.
spec fn is_object_text(element: Element, text: Seq<u8>) -> bool {
    &&& element == Element::Size ==> is_number(text, u64::MAX as nat)
    &&& element == Element::StorageClass ==> text.len() > 0
}

/// One field of an object.
proof fn lemma_object_field(object: list::PartialObject, element: Element, text: Seq<u8>)
    requires
        node::is_of_object(element),
    ensures
        list::with_object_field(object, element, text) is Ok <==> is_open(object, element)
            && is_object_text(element, text),
        list::with_object_field(object, element, text) matches Ok(next) ==> {
            &&& !is_open(next, element)
            &&& element != Element::StorageClass ==> object_slot(next, element) == Some(text)
            &&& forall|other: Element|
                other != element ==> #[trigger] object_slot(next, other) == object_slot(
                    object,
                    other,
                ) && is_open(next, other) == is_open(object, other)
        },
{
    if element == Element::Size {
        lemma_number(text, u64::MAX as nat);
    }
}

/// Whether texts are good for an object's field: at most one, and none where the
/// field was read before.
spec fn are_object_texts(
    object: list::PartialObject,
    element: Element,
    texts: Seq<Seq<u8>>,
) -> bool {
    &&& texts.len() <= 1
    &&& texts.len() == 1 ==> is_open(object, element) && is_object_text(element, texts[0])
}

/// Fields of an object, one after the other.
proof fn lemma_object_fields(page: list::PageState, entries: Seq<FieldEntry>)
    requires
        node::are_entries(entries),
        page.object is Some,
    ensures
        node::after_entries(page, entries) is Ok <==> forall|e: Element|
            node::is_of_object(e) ==> are_object_texts(
                page.object->0,
                e,
                #[trigger] node::entry_texts(entries, e),
            ),
        node::after_entries(page, entries) matches Ok(next) ==> {
            &&& next.object is Some
            &&& forall|e: Element|
                node::is_of_object(e) && e != Element::StorageClass ==> #[trigger] object_slot(
                    next.object->0,
                    e,
                ) == (if node::entry_texts(entries, e).len() > 0 {
                    Some(node::entry_texts(entries, e)[0])
                } else {
                    object_slot(page.object->0, e)
                })
            &&& next == (list::PageState {
                object: next.object,
                text: next.text,
                total_text_bytes: next.total_text_bytes,
                events: next.events,
                ..page
            })
        },
    decreases entries.len(),
{
    let object = page.object->0;
    if entries.len() == 0 {
        assert(forall|e: Element| #[trigger] node::entry_texts(entries, e).len() == 0);
    } else {
        let gap = entries[0].gap;
        let node = entries[0].node;
        let element = node.element;
        let text = node::node_text(node);
        let tail = entries.drop_first();
        let base = node::after_node(piece::tallied(page, piece::pieces_text(gap), gap.len() as int), node);
        node::lemma_entries_tail(entries);
        node::lemma_elements(element);
        lemma_object_field(object, element, text);
        assert(base.object == page.object);
        assert(node::entry_texts(entries, element) == seq![text] + node::entry_texts(tail, element));
        assert(node::entry_texts(entries, element)[0] == text);
        match list::with_object_field(object, element, text) {
            Ok(filled) => {
                let next = list::PageState { object: Some(filled), ..base };
                assert(list::with_scalar(base, element, text) == Ok::<list::PageState, HttpError>(
                    next,
                ));
                lemma_object_fields(next, tail);
                if node::after_entries(next, tail) is Ok {
                    assert forall|e: Element| node::is_of_object(e) implies are_object_texts(
                        object,
                        e,
                        #[trigger] node::entry_texts(entries, e),
                    ) by {
                        assert(are_object_texts(filled, e, node::entry_texts(tail, e)));
                        assert(object_slot(filled, e) == object_slot(filled, e));
                    }
                }
                if forall|e: Element|
                    node::is_of_object(e) ==> are_object_texts(
                        object,
                        e,
                        #[trigger] node::entry_texts(entries, e),
                    ) {
                    assert forall|e: Element| node::is_of_object(e) implies are_object_texts(
                        filled,
                        e,
                        #[trigger] node::entry_texts(tail, e),
                    ) by {
                        assert(are_object_texts(object, e, node::entry_texts(entries, e)));
                        assert(object_slot(filled, e) == object_slot(filled, e));
                    }
                }
                if let Ok(last) = node::after_entries(next, tail) {
                    assert forall|e: Element|
                        node::is_of_object(e) && e != Element::StorageClass implies #[trigger] object_slot(
                        last.object->0,
                        e,
                    ) == (if node::entry_texts(entries, e).len() > 0 {
                        Some(node::entry_texts(entries, e)[0])
                    } else {
                        object_slot(object, e)
                    }) by {
                        assert(are_object_texts(filled, e, node::entry_texts(tail, e)));
                        assert(object_slot(filled, e) == object_slot(filled, e));
                    }
                }
            },
            Err(_) => {
                assert(list::with_scalar(base, element, text) is Err);
                assert(!are_object_texts(object, element, node::entry_texts(entries, element)));
            },
        }
    }
}

/// Whether the fields of an object list this object: its key and its size once
/// each, its entity tag and the time of its last change where it has them, and
/// perhaps a storage class, which is not blank.
pub open spec fn lists(entries: Seq<FieldEntry>, object: list::ObjectModel) -> bool {
    &&& object.key.len() > 0
    &&& node::entry_texts(entries, Element::Key) == seq![object.key]
    &&& node::entry_texts(entries, Element::Size) == seq![number::decimal(object.size as nat)]
    &&& node::entry_texts(entries, Element::Etag) == optional(object.etag)
    &&& node::entry_texts(entries, Element::LastModified) == optional(object.last_modified)
    &&& node::entry_texts(entries, Element::StorageClass).len() <= 1
    &&& node::entry_texts(entries, Element::StorageClass).len() == 1 ==> node::entry_texts(
        entries,
        Element::StorageClass,
    )[0].len() > 0
}

/// A value that may be missing, as a sequence.
pub open spec fn optional(value: Option<Seq<u8>>) -> Seq<Seq<u8>> {
    match value {
        Some(text) => seq![text],
        None => Seq::empty(),
    }
}

/// An object is listed exactly where its fields say so.
proof fn lemma_object_is_listed(page: list::PageState, entries: Seq<FieldEntry>)
    requires
        node::are_entries(entries),
        page.object == Some(list::no_object_fields()),
    ensures
        ({
            let read = match node::after_entries(page, entries) {
                Ok(next) => list::with_object(next),
                Err(error) => Err(error),
            };
            &&& read is Ok <==> exists|object: list::ObjectModel| #[trigger] lists(entries, object)
            &&& read matches Ok(last) ==> {
                &&& last.objects.len() == page.objects.len() + 1
                &&& last.objects.drop_last() == page.objects
                &&& lists(entries, last.objects.last())
                &&& last == (list::PageState {
                    objects: last.objects,
                    object: None,
                    text: last.text,
                    total_text_bytes: last.total_text_bytes,
                    events: last.events,
                    ..page
                })
            }
        }),
{
    let none = list::no_object_fields();
    let keys = node::entry_texts(entries, Element::Key);
    let sizes = node::entry_texts(entries, Element::Size);
    let tags = node::entry_texts(entries, Element::Etag);
    let times = node::entry_texts(entries, Element::LastModified);
    let classes = node::entry_texts(entries, Element::StorageClass);
    lemma_object_fields(page, entries);
    if let Ok(next) = node::after_entries(page, entries) {
        let object = next.object->0;
        assert(are_object_texts(none, Element::Key, keys));
        assert(are_object_texts(none, Element::Size, sizes));
        assert(are_object_texts(none, Element::Etag, tags));
        assert(are_object_texts(none, Element::LastModified, times));
        assert(are_object_texts(none, Element::StorageClass, classes));
        assert(object_slot(object, Element::Key) == object.key);
        assert(object_slot(object, Element::Etag) == object.etag);
        assert(object_slot(object, Element::LastModified) == object.last_modified);
        assert(object_slot(object, Element::Size) is Some <==> object.size is Some);
        if let Ok(last) = list::with_object(next) {
            let model = last.objects.last();
            assert(last.objects.drop_last() =~= page.objects);
            assert(keys =~= seq![model.key]);
            assert(sizes =~= seq![number::decimal(model.size as nat)]);
            assert(tags =~= optional(model.etag));
            assert(times =~= optional(model.last_modified));
            assert(lists(entries, model));
        }
    }
    if exists|object: list::ObjectModel| #[trigger] lists(entries, object) {
        let object = choose|object: list::ObjectModel| #[trigger] lists(entries, object);
        assert(is_number(number::decimal(object.size as nat), u64::MAX as nat));
        assert forall|e: Element| node::is_of_object(e) implies are_object_texts(
            none,
            e,
            #[trigger] node::entry_texts(entries, e),
        ) by {
            assert(sizes[0] == number::decimal(object.size as nat));
        }
        let next = node::after_entries(page, entries)->Ok_0;
        let read = next.object->0;
        assert(object_slot(read, Element::Key) == read.key);
        assert(object_slot(read, Element::Size) is Some <==> read.size is Some);
        assert(keys[0] == object.key);
    }
}

/// Two objects that the same fields list are the same.
proof fn lemma_lists_one(entries: Seq<FieldEntry>, a: list::ObjectModel, b: list::ObjectModel)
    requires
        lists(entries, a),
        lists(entries, b),
    ensures
        a == b,
{
    assert(seq![a.key][0] == seq![b.key][0]);
    assert(seq![number::decimal(a.size as nat)][0] == seq![number::decimal(b.size as nat)][0]);
    lemma_decimals_differ(a.size as nat, b.size as nat);
    lemma_optional(a.etag, b.etag);
    lemma_optional(a.last_modified, b.last_modified);
}

proof fn lemma_optional(a: Option<Seq<u8>>, b: Option<Seq<u8>>)
    requires
        optional(a) == optional(b),
    ensures
        a == b,
{
    assert(optional(a).len() == 1 <==> a is Some);
    assert(optional(b).len() == 1 <==> b is Some);
    if a is Some {
        assert(optional(a)[0] == a->0);
        assert(optional(b)[0] == b->0);
    }
}

/// What stands in a page: a field of its own, or an object with blanks behind
/// its last field.
pub enum Item {
    Field { node: Node },
    Object { entries: Seq<FieldEntry>, gap: Seq<Piece> },
}

/// An item of a page, behind the blanks before it.
pub struct ItemEntry {
    pub gap: Seq<Piece>,
    pub item: Item,
}

/// How an item is written.
pub open spec fn written_item(item: Item) -> Seq<u8> {
    match item {
        Item::Field { node } => node::written_node(node),
        Item::Object { entries, gap } => seq![0x3cu8] + node::tag(Element::Contents) + seq![0x3eu8]
            + node::written_entries(entries) + piece::written_pieces(gap) + seq![0x3cu8, 0x2fu8] + node::tag(
            Element::Contents,
        ) + seq![0x3eu8],
    }
}

/// How many events an item takes.
pub open spec fn item_events(item: Item) -> int {
    match item {
        Item::Field { node } => node::node_events(node),
        Item::Object { entries, gap } => 2 + node::entries_events(entries) + gap.len(),
    }
}

/// How many bytes of text an item holds.
pub open spec fn item_bytes(item: Item) -> int {
    match item {
        Item::Field { node } => node::node_text(node).len() as int,
        Item::Object { entries, gap } => node::entries_bytes(entries) + piece::pieces_text(gap).len(),
    }
}

/// Whether an item is well formed.
pub open spec fn is_item(item: Item) -> bool {
    match item {
        Item::Field { node } => node::is_node(node) && node::is_of_page(node.element),
        Item::Object { entries, gap } => node::are_entries(entries) && piece::are_blank(gap),
    }
}

/// How items are written.
pub open spec fn written_items(items: Seq<ItemEntry>) -> Seq<u8>
    decreases items.len(),
{
    if items.len() == 0 {
        Seq::empty()
    } else {
        piece::written_pieces(items[0].gap) + written_item(items[0].item) + written_items(
            items.drop_first(),
        )
    }
}

/// How many events items take.
pub open spec fn items_events(items: Seq<ItemEntry>) -> int
    decreases items.len(),
{
    if items.len() == 0 {
        0
    } else {
        items[0].gap.len() + item_events(items[0].item) + items_events(items.drop_first())
    }
}

/// How many bytes of text items and the blanks before them hold.
pub open spec fn items_bytes(items: Seq<ItemEntry>) -> int
    decreases items.len(),
{
    if items.len() == 0 {
        0
    } else {
        piece::pieces_text(items[0].gap).len() + item_bytes(items[0].item) + items_bytes(
            items.drop_first(),
        )
    }
}

/// Whether items are well formed.
pub open spec fn are_items(items: Seq<ItemEntry>) -> bool {
    forall|i: int|
        0 <= i < items.len() ==> piece::are_blank((#[trigger] items[i]).gap) && is_item(items[i].item)
}

/// The texts of a page's fields of one kind.
pub open spec fn item_texts(items: Seq<ItemEntry>, element: Element) -> Seq<Seq<u8>>
    decreases items.len(),
{
    if items.len() == 0 {
        Seq::empty()
    } else {
        let rest = item_texts(items.drop_first(), element);
        match items[0].item {
            Item::Field { node } => if node.element == element {
                seq![node::node_text(node)] + rest
            } else {
                rest
            },
            Item::Object { .. } => rest,
        }
    }
}

/// The fields of a page's objects.
pub open spec fn item_objects(items: Seq<ItemEntry>) -> Seq<Seq<FieldEntry>>
    decreases items.len(),
{
    if items.len() == 0 {
        Seq::empty()
    } else {
        let rest = item_objects(items.drop_first());
        match items[0].item {
            Item::Field { .. } => rest,
            Item::Object { entries, .. } => seq![entries] + rest,
        }
    }
}

/// The page in which an object is open.
spec fn object_page(page: list::PageState) -> list::PageState {
    list::PageState {
        object: Some(list::no_object_fields()),
        stack: page.stack.push(Element::Contents),
        text: Seq::empty(),
        ..render::counted(page)
    }
}

/// The page in which an object is about to be closed.
spec fn closing_page(page: list::PageState, next: list::PageState, gap: Seq<Piece>) -> list::PageState {
    list::PageState {
        stack: page.stack,
        text: Seq::empty(),
        ..render::counted(piece::tallied(next, piece::pieces_text(gap), gap.len() as int))
    }
}

/// The page after an object was read.
spec fn after_object(page: list::PageState, entries: Seq<FieldEntry>, gap: Seq<Piece>) -> Result<
    list::PageState,
    HttpError,
> {
    match node::after_entries(object_page(page), entries) {
        Ok(next) => list::with_object(closing_page(page, next, gap)),
        Err(error) => Err(error),
    }
}

/// An object is read.
proof fn lemma_object_reads(
    page: list::PageState,
    entries: Seq<FieldEntry>,
    gap: Seq<Piece>,
    rest: Seq<u8>,
    cursor: int,
)
    requires
        node::are_entries(entries),
        piece::are_blank(gap),
        !page.root_closed,
        page.stack == seq![Element::Root],
        page.object is None,
        0 <= page.events,
        page.events + 2 + node::entries_events(entries) + gap.len() <= 32768,
        0 <= page.total_text_bytes,
        page.total_text_bytes + node::entries_bytes(entries) + piece::pieces_text(gap).len() <= 3_145_728,
    ensures
        ({
            let written = written_item(Item::Object { entries, gap });
            list::read(page, written + rest, cursor) == (match after_object(page, entries, gap) {
                Ok(next) => list::read(next, rest, cursor + written.len()),
                Err(error) => Err(error),
            })
        }),
        after_object(page, entries, gap) matches Ok(next) ==> {
            &&& next.events == page.events + 2 + node::entries_events(entries) + gap.len()
            &&& next.total_text_bytes == page.total_text_bytes + node::entries_bytes(entries)
                + piece::pieces_text(gap).len()
        },
{
    let element = Element::Contents;
    let name = element::element_name(element);
    let written = written_item(Item::Object { entries, gap });
    let closing = render::end_tag(element) + rest;
    let blank = piece::written_pieces(gap) + closing;
    let started = object_page(page);
    node::lemma_elements(element);
    node::lemma_entries_are_natural(entries);
    element::lemma_child(list::open_element(page), element);
    assert(list::open_element(render::counted(page)) == list::open_element(page));
    assert(written + rest =~= render::start_tag(element) + (node::written_entries(entries) + blank));
    render::lemma_start_reads(page, element, node::written_entries(entries) + blank, cursor);
    assert(list::with_start(render::counted(page), name, 0) == Ok::<list::PageState, HttpError>(
        started,
    ));
    assert(started.stack =~= seq![Element::Root, Element::Contents]);
    let opened = cursor + render::start_tag(element).len();
    node::lemma_entries_read(started, entries, blank, opened);
    if let Ok(next) = node::after_entries(started, entries) {
        let filled = opened + node::written_entries(entries).len();
        assert(closing[0] == 0x3c);
        assert(list::open_element(next) == Some(element));
        piece::lemma_blanks_read(next, gap, closing, filled);
        let passed = piece::tallied(next, piece::pieces_text(gap), gap.len() as int);
        render::lemma_end_reads(passed, element, rest, filled + piece::written_pieces(gap).len());
        assert(list::open_element(render::counted(passed)) == Some(element));
        assert(passed.stack.drop_last() =~= page.stack);
        assert(list::with_end(render::counted(passed), name) == list::with_object(
            closing_page(page, next, gap),
        ));
    }
    assert(written.len() == render::start_tag(element).len() + node::written_entries(entries).len()
        + piece::written_pieces(gap).len() + render::end_tag(element).len());
}

/// The page after an item was read.
spec fn after_item(page: list::PageState, item: Item) -> Result<list::PageState, HttpError> {
    match item {
        Item::Field { node } => list::with_scalar(
            node::after_node(page, node),
            node.element,
            node::node_text(node),
        ),
        Item::Object { entries, gap } => after_object(page, entries, gap),
    }
}

/// The page after items were read.
spec fn after_items(page: list::PageState, items: Seq<ItemEntry>) -> Result<
    list::PageState,
    HttpError,
>
    decreases items.len(),
{
    if items.len() == 0 {
        Ok(page)
    } else {
        let gap = items[0].gap;
        match after_item(piece::tallied(page, piece::pieces_text(gap), gap.len() as int), items[0].item) {
            Ok(next) => after_items(next, items.drop_first()),
            Err(error) => Err(error),
        }
    }
}

/// The text that was read of a page's field.
spec fn page_slot(page: list::PageState, element: Element) -> Option<Seq<u8>> {
    match element {
        Element::Name => page.name,
        Element::Prefix => page.prefix,
        Element::KeyCount => match page.key_count {
            Some(n) => Some(number::decimal(n as nat)),
            None => None,
        },
        Element::MaxKeys => match page.max_keys {
            Some(n) => Some(number::decimal(n as nat)),
            None => None,
        },
        Element::IsTruncated => match page.is_truncated {
            Some(value) => Some(render::flag(value)),
            None => None,
        },
        Element::ContinuationToken => page.continuation_token,
        Element::NextContinuationToken => page.next_continuation_token,
        _ => None,
    }
}

/// Whether a text is good for a page's field.
spec fn is_page_text(element: Element, text: Seq<u8>) -> bool {
    &&& element == Element::KeyCount || element == Element::MaxKeys ==> is_number(
        text,
        u32::MAX as nat,
    )
    &&& element == Element::IsTruncated ==> text == "true".spec_bytes() || text
        == "false".spec_bytes()
}

/// Whether two pages agree on everything but their fields and what is counted.
spec fn is_like(next: list::PageState, page: list::PageState) -> bool {
    &&& next.object == page.object
    &&& next.stack == page.stack
    &&& next.root_closed == page.root_closed
}

/// One field of a page.
proof fn lemma_page_field(page: list::PageState, element: Element, text: Seq<u8>)
    requires
        node::is_of_page(element),
    ensures
        list::with_page_field(page, element, text) is Ok <==> page_slot(page, element) is None
            && is_page_text(element, text),
        list::with_page_field(page, element, text) matches Ok(next) ==> {
            &&& page_slot(next, element) == Some(text)
            &&& forall|other: Element|
                other != element ==> #[trigger] page_slot(next, other) == page_slot(page, other)
            &&& is_like(next, page)
            &&& next.objects == page.objects
            &&& next.events == page.events
            &&& next.total_text_bytes == page.total_text_bytes
        },
{
    render::lemma_flags();
    if element == Element::KeyCount || element == Element::MaxKeys {
        lemma_number(text, u32::MAX as nat);
    }
}

/// Whether texts are good for a page's field: at most one, and none where the
/// field was read before.
spec fn are_page_texts(page: list::PageState, element: Element, texts: Seq<Seq<u8>>) -> bool {
    &&& texts.len() <= 1
    &&& texts.len() == 1 ==> page_slot(page, element) is None && is_page_text(element, texts[0])
}

/// Whether an object is listed by some fields.
spec fn is_listing(entries: Seq<FieldEntry>) -> bool {
    exists|object: list::ObjectModel| #[trigger] lists(entries, object)
}

/// An object is read from its fields.
proof fn lemma_object_item(page: list::PageState, entries: Seq<FieldEntry>, gap: Seq<Piece>)
    requires
        node::are_entries(entries),
        page.object is None,
    ensures
        after_object(page, entries, gap) is Ok <==> is_listing(entries),
        after_object(page, entries, gap) matches Ok(next) ==> {
            &&& next.objects.len() == page.objects.len() + 1
            &&& next.objects.drop_last() == page.objects
            &&& lists(entries, next.objects.last())
            &&& is_like(next, page)
            &&& forall|e: Element| #[trigger] page_slot(next, e) == page_slot(page, e)
        },
{
    lemma_object_is_listed(object_page(page), entries);
    if let Ok(next) = node::after_entries(object_page(page), entries) {
        let closed = closing_page(page, next, gap);
        lemma_object_fields(object_page(page), entries);
        assert(list::with_object(closed) is Ok <==> list::with_object(next) is Ok);
        if let Ok(last) = list::with_object(closed) {
            assert(last.objects == list::with_object(next)->Ok_0.objects);
        }
    }
}

proof fn lemma_items_tail(items: Seq<ItemEntry>)
    requires
        are_items(items),
        items.len() > 0,
    ensures
        are_items(items.drop_first()),
        piece::are_blank(items[0].gap),
        is_item(items[0].item),
{
    let tail = items.drop_first();
    assert forall|i: int| 0 <= i < tail.len() implies piece::are_blank((#[trigger] tail[i]).gap)
        && is_item(tail[i].item) by {
        assert(piece::are_blank(items[i + 1].gap));
    }
    assert(piece::are_blank(items[0].gap));
}

proof fn lemma_items_are_natural(items: Seq<ItemEntry>)
    ensures
        0 <= items_events(items),
        0 <= items_bytes(items),
    decreases items.len(),
{
    if items.len() > 0 {
        lemma_items_are_natural(items.drop_first());
        if let Item::Object { entries, gap } = items[0].item {
            node::lemma_entries_are_natural(entries);
        }
    }
}

/// An item is read.
proof fn lemma_item_reads(page: list::PageState, item: Item, rest: Seq<u8>, cursor: int)
    requires
        is_item(item),
        !page.root_closed,
        page.stack == seq![Element::Root],
        page.object is None,
        0 <= page.events,
        page.events + item_events(item) <= 32768,
        0 <= page.total_text_bytes,
        page.total_text_bytes + item_bytes(item) <= 3_145_728,
    ensures
        list::read(page, written_item(item) + rest, cursor) == (match after_item(page, item) {
            Ok(next) => list::read(next, rest, cursor + written_item(item).len()),
            Err(error) => Err(error),
        }),
        after_item(page, item) matches Ok(next) ==> {
            &&& is_like(next, page)
            &&& next.events == page.events + item_events(item)
            &&& next.total_text_bytes == page.total_text_bytes + item_bytes(item)
        },
{
    match item {
        Item::Field { node } => {
            node::lemma_elements(node.element);
            assert(list::open_element(page) == Some(Element::Root));
            node::lemma_node_reads(page, node, rest, cursor);
            lemma_page_field(node::after_node(page, node), node.element, node::node_text(node));
        },
        Item::Object { entries, gap } => {
            lemma_object_reads(page, entries, gap, rest, cursor);
            lemma_object_item(page, entries, gap);
        },
    }
}

/// An item is read, with the blanks before it.
proof fn lemma_entry_reads(
    page: list::PageState,
    gap: Seq<Piece>,
    item: Item,
    behind: Seq<u8>,
    cursor: int,
)
    requires
        piece::are_blank(gap),
        is_item(item),
        !page.root_closed,
        page.stack == seq![Element::Root],
        page.object is None,
        0 <= page.events,
        page.events + gap.len() + item_events(item) <= 32768,
        0 <= page.total_text_bytes,
        page.total_text_bytes + piece::pieces_text(gap).len() + item_bytes(item) <= 3_145_728,
        0 <= item_events(item),
        0 <= item_bytes(item),
    ensures
        ({
            let passed = piece::tallied(page, piece::pieces_text(gap), gap.len() as int);
            let length = piece::written_pieces(gap).len() + written_item(item).len();
            &&& list::read(
                page,
                piece::written_pieces(gap) + (written_item(item) + behind),
                cursor,
            ) == (match after_item(passed, item) {
                Ok(next) => list::read(next, behind, cursor + length),
                Err(error) => Err(error),
            })
            &&& after_item(passed, item) matches Ok(next) ==> {
                &&& is_like(next, page)
                &&& next.events == page.events + gap.len() + item_events(item)
                &&& next.total_text_bytes == page.total_text_bytes + piece::pieces_text(gap).len()
                    + item_bytes(item)
            }
        }),
{
    assert((written_item(item) + behind)[0] == 0x3c);
    assert(list::open_element(page) == Some(Element::Root));
    piece::lemma_blanks_read(page, gap, written_item(item) + behind, cursor);
    let passed = piece::tallied(page, piece::pieces_text(gap), gap.len() as int);
    lemma_item_reads(passed, item, behind, cursor + piece::written_pieces(gap).len());
}

proof fn lemma_item_is_natural(item: Item)
    ensures
        0 <= item_events(item),
        0 <= item_bytes(item),
{
    if let Item::Object { entries, gap } = item {
        node::lemma_entries_are_natural(entries);
    }
}

/// The items of a page are read, with the blanks between them.
proof fn lemma_items_read(
    page: list::PageState,
    items: Seq<ItemEntry>,
    rest: Seq<u8>,
    cursor: int,
)
    requires
        are_items(items),
        !page.root_closed,
        page.stack == seq![Element::Root],
        page.object is None,
        0 <= page.events,
        page.events + items_events(items) <= 32768,
        0 <= page.total_text_bytes,
        page.total_text_bytes + items_bytes(items) <= 3_145_728,
    ensures
        list::read(page, written_items(items) + rest, cursor) == (match after_items(page, items) {
            Ok(next) => list::read(next, rest, cursor + written_items(items).len()),
            Err(error) => Err(error),
        }),
        after_items(page, items) matches Ok(next) ==> {
            &&& is_like(next, page)
            &&& next.events == page.events + items_events(items)
            &&& next.total_text_bytes == page.total_text_bytes + items_bytes(items)
        },
    decreases items.len(),
{
    if items.len() == 0 {
        assert(written_items(items) + rest =~= rest);
    } else {
        let gap = items[0].gap;
        let item = items[0].item;
        let tail = items.drop_first();
        let behind = written_items(tail) + rest;
        let length = piece::written_pieces(gap).len() + written_item(item).len();
        lemma_items_tail(items);
        lemma_items_are_natural(tail);
        lemma_item_is_natural(item);
        node::lemma_regrouped(piece::written_pieces(gap), written_item(item), written_items(tail), rest);
        lemma_entry_reads(page, gap, item, behind, cursor);
        let passed = piece::tallied(page, piece::pieces_text(gap), gap.len() as int);
        if let Ok(next) = after_item(passed, item) {
            lemma_items_read(next, tail, rest, cursor + length);
        }
    }
}

/// Whether the items of a page can be read: each field is good and comes once at
/// most, and every object is one.
#[verifier::opaque]
spec fn are_good(page: list::PageState, items: Seq<ItemEntry>) -> bool {
    &&& forall|e: Element|
        node::is_of_page(e) ==> are_page_texts(page, e, #[trigger] item_texts(items, e))
    &&& forall|i: int|
        0 <= i < item_objects(items).len() ==> is_listing(#[trigger] item_objects(items)[i])
}

/// Whether a page holds what its items say.
#[verifier::opaque]
spec fn holds(next: list::PageState, page: list::PageState, items: Seq<ItemEntry>) -> bool {
    &&& forall|e: Element|
        node::is_of_page(e) ==> #[trigger] page_slot(next, e) == (if item_texts(items, e).len() > 0 {
            Some(item_texts(items, e)[0])
        } else {
            page_slot(page, e)
        })
    &&& next.objects.len() == page.objects.len() + item_objects(items).len()
    &&& forall|i: int| 0 <= i < page.objects.len() ==> #[trigger] next.objects[i] == page.objects[i]
    &&& forall|i: int|
        0 <= i < item_objects(items).len() ==> lists(
            #[trigger] item_objects(items)[i],
            next.objects[page.objects.len() + i],
        )
}

/// A field of a page comes first.
proof fn lemma_field_first(page: list::PageState, items: Seq<ItemEntry>)
    requires
        are_items(items),
        items.len() > 0,
        items[0].item is Field,
        page.object is None,
        forall|next: list::PageState|
            next.object is None ==> (after_items(next, items.drop_first()) is Ok <==> #[trigger] are_good(
                next,
                items.drop_first(),
            )),
        forall|next: list::PageState|
            next.object is None && after_items(next, items.drop_first()) is Ok ==> holds(
                (#[trigger] after_items(next, items.drop_first()))->Ok_0,
                next,
                items.drop_first(),
            ),
    ensures
        after_items(page, items) is Ok <==> are_good(page, items),
        after_items(page, items) matches Ok(next) ==> holds(next, page, items),
{
    reveal(are_good);
    reveal(holds);
    let gap = items[0].gap;
    let node = items[0].item->node;
    let element = node.element;
    let text = node::node_text(node);
    let tail = items.drop_first();
    let passed = piece::tallied(page, piece::pieces_text(gap), gap.len() as int);
    let base = node::after_node(passed, node);
    lemma_items_tail(items);
    node::lemma_elements(element);
    lemma_page_field(base, element, text);
    assert(item_objects(items) == item_objects(tail));
    assert(item_texts(items, element) == seq![text] + item_texts(tail, element));
    assert(item_texts(items, element)[0] == text);
    assert forall|e: Element| #[trigger] page_slot(base, e) == page_slot(page, e) by {}
    match list::with_page_field(base, element, text) {
        Ok(filled) => {
            assert(after_item(passed, items[0].item) == Ok::<list::PageState, HttpError>(filled));
            assert(after_items(filled, tail) is Ok <==> are_good(filled, tail));
            if are_good(filled, tail) {
                assert forall|e: Element| node::is_of_page(e) implies are_page_texts(
                    page,
                    e,
                    #[trigger] item_texts(items, e),
                ) by {
                    assert(are_page_texts(filled, e, item_texts(tail, e)));
                    assert(page_slot(base, e) == page_slot(page, e));
                    if e != element {
                        assert(page_slot(filled, e) == page_slot(base, e));
                    }
                }
                let last = after_items(filled, tail)->Ok_0;
                assert(holds(last, filled, tail));
                assert forall|e: Element| node::is_of_page(e) implies #[trigger] page_slot(last, e) == (
                if item_texts(items, e).len() > 0 {
                    Some(item_texts(items, e)[0])
                } else {
                    page_slot(page, e)
                }) by {
                    assert(are_page_texts(filled, e, item_texts(tail, e)));
                    assert(page_slot(base, e) == page_slot(page, e));
                    if e != element {
                        assert(page_slot(filled, e) == page_slot(base, e));
                    }
                }
            }
            if are_good(page, items) {
                assert forall|e: Element| node::is_of_page(e) implies are_page_texts(
                    filled,
                    e,
                    #[trigger] item_texts(tail, e),
                ) by {
                    assert(are_page_texts(page, e, item_texts(items, e)));
                    assert(page_slot(base, e) == page_slot(page, e));
                    if e != element {
                        assert(page_slot(filled, e) == page_slot(base, e));
                    }
                }
            }
        },
        Err(_) => {
            assert(after_item(passed, items[0].item) is Err);
            assert(page_slot(base, element) == page_slot(page, element));
            assert(!are_page_texts(page, element, item_texts(items, element)));
        },
    }
}

/// An object of a page comes first.
proof fn lemma_object_first(page: list::PageState, items: Seq<ItemEntry>)
    requires
        are_items(items),
        items.len() > 0,
        items[0].item is Object,
        page.object is None,
        forall|next: list::PageState|
            next.object is None ==> (after_items(next, items.drop_first()) is Ok <==> #[trigger] are_good(
                next,
                items.drop_first(),
            )),
        forall|next: list::PageState|
            next.object is None && after_items(next, items.drop_first()) is Ok ==> holds(
                (#[trigger] after_items(next, items.drop_first()))->Ok_0,
                next,
                items.drop_first(),
            ),
    ensures
        after_items(page, items) is Ok <==> are_good(page, items),
        after_items(page, items) matches Ok(next) ==> holds(next, page, items),
{
    reveal(are_good);
    reveal(holds);
    let gap = items[0].gap;
    let tail = items.drop_first();
    let passed = piece::tallied(page, piece::pieces_text(gap), gap.len() as int);
    let entries = items[0].item->entries;
    let inner = items[0].item->Object_gap;
    let objects = item_objects(items);
    lemma_items_tail(items);
    assert(is_item(items[0].item));
    lemma_object_item(passed, entries, inner);
    assert(objects == seq![entries] + item_objects(tail));
    assert(objects[0] == entries);
    assert forall|e: Element| #[trigger] item_texts(items, e) == item_texts(tail, e) by {}
    assert forall|e: Element| #[trigger] page_slot(passed, e) == page_slot(page, e) by {}
    match after_object(passed, entries, inner) {
        Ok(filled) => {
            assert(after_items(filled, tail) is Ok <==> are_good(filled, tail));
            if are_good(filled, tail) {
                assert forall|e: Element| node::is_of_page(e) implies are_page_texts(
                    page,
                    e,
                    #[trigger] item_texts(items, e),
                ) by {
                    assert(are_page_texts(filled, e, item_texts(tail, e)));
                    assert(page_slot(filled, e) == page_slot(passed, e));
                }
                assert forall|i: int| 0 <= i < objects.len() implies is_listing(
                    #[trigger] objects[i],
                ) by {
                    if i > 0 {
                        assert(is_listing(item_objects(tail)[i - 1]));
                    }
                }
                let last = after_items(filled, tail)->Ok_0;
                assert(holds(last, filled, tail));
                assert forall|e: Element| node::is_of_page(e) implies #[trigger] page_slot(last, e) == (
                if item_texts(items, e).len() > 0 {
                    Some(item_texts(items, e)[0])
                } else {
                    page_slot(page, e)
                }) by {
                    assert(page_slot(filled, e) == page_slot(passed, e));
                }
                assert forall|i: int| 0 <= i < page.objects.len() implies #[trigger] last.objects[i]
                    == page.objects[i] by {
                    assert(last.objects[i] == filled.objects[i]);
                    assert(filled.objects.drop_last()[i] == page.objects[i]);
                }
                assert forall|i: int| 0 <= i < objects.len() implies lists(
                    #[trigger] objects[i],
                    last.objects[page.objects.len() + i],
                ) by {
                    if i > 0 {
                        assert(lists(
                            item_objects(tail)[i - 1],
                            last.objects[filled.objects.len() + (i - 1)],
                        ));
                    } else {
                        assert(last.objects[page.objects.len() as int] == filled.objects.last());
                    }
                }
            }
            if are_good(page, items) {
                assert forall|e: Element| node::is_of_page(e) implies are_page_texts(
                    filled,
                    e,
                    #[trigger] item_texts(tail, e),
                ) by {
                    assert(are_page_texts(page, e, item_texts(items, e)));
                    assert(page_slot(filled, e) == page_slot(passed, e));
                }
                assert forall|i: int| 0 <= i < item_objects(tail).len() implies is_listing(
                    #[trigger] item_objects(tail)[i],
                ) by {
                    assert(is_listing(objects[i + 1]));
                }
            }
        },
        Err(_) => {
            assert(!is_listing(objects[0]));
        },
    }
}

/// What the items of a page say is what it holds, and they can be read exactly
/// where they are good.
proof fn lemma_items(page: list::PageState, items: Seq<ItemEntry>)
    requires
        are_items(items),
        page.object is None,
    ensures
        after_items(page, items) is Ok <==> are_good(page, items),
        after_items(page, items) matches Ok(next) ==> holds(next, page, items),
    decreases items.len(),
{
    reveal(are_good);
    reveal(holds);
    if items.len() == 0 {
        assert(forall|e: Element| #[trigger] item_texts(items, e).len() == 0);
        assert(item_objects(items).len() == 0);
    } else {
        let tail = items.drop_first();
        lemma_items_tail(items);
        assert forall|next: list::PageState| next.object is None implies (after_items(
            next,
            tail,
        ) is Ok <==> #[trigger] are_good(next, tail)) by {
            lemma_items(next, tail);
        }
        assert forall|next: list::PageState|
            next.object is None && after_items(next, tail) is Ok implies holds(
            (#[trigger] after_items(next, tail))->Ok_0,
            next,
            tail,
        ) by {
            lemma_items(next, tail);
        }
        if items[0].item is Field {
            lemma_field_first(page, items);
        } else {
            lemma_object_first(page, items);
        }
    }
}

/// The declarations that are understood: version 1.0, and perhaps the encoding in
/// either case, all in one kind of quotes.
pub open spec fn is_known_declaration(s: Seq<u8>) -> bool {
    ||| s == "<?xml version=\"1.0\"?>".spec_bytes()
    ||| s == "<?xml version=\"1.0\" encoding=\"UTF-8\"?>".spec_bytes()
    ||| s == "<?xml version=\"1.0\" encoding=\"utf-8\"?>".spec_bytes()
    ||| s == "<?xml version='1.0'?>".spec_bytes()
    ||| s == "<?xml version='1.0' encoding='UTF-8'?>".spec_bytes()
    ||| s == "<?xml version='1.0' encoding='utf-8'?>".spec_bytes()
}

/// The one attribute that is understood, in either kind of quotes.
pub open spec fn is_known_namespace(s: Seq<u8>) -> bool {
    ||| s == " xmlns=\"http://s3.amazonaws.com/doc/2006-03-01/\"".spec_bytes()
    ||| s == " xmlns='http://s3.amazonaws.com/doc/2006-03-01/'".spec_bytes()
}

/// A document: perhaps a declaration, the root, perhaps with its namespace, the
/// items in it, and blanks wherever they may stand.
pub struct Document {
    pub declaration: Seq<u8>,
    pub before: Seq<Piece>,
    pub namespace: Seq<u8>,
    pub items: Seq<ItemEntry>,
    pub gap: Seq<Piece>,
    pub after: Seq<Piece>,
}

/// How a document is written.
pub open spec fn written(document: Document) -> Seq<u8> {
    document.declaration + piece::written_pieces(document.before) + seq![0x3cu8] + node::tag(Element::Root)
        + document.namespace + seq![0x3eu8] + written_items(document.items) + piece::written_pieces(
        document.gap,
    ) + seq![0x3cu8, 0x2fu8] + node::tag(Element::Root) + seq![0x3eu8] + piece::written_pieces(document.after)
}

/// How many events a document takes.
pub open spec fn events(document: Document) -> int {
    (if document.declaration.len() > 0 {
        1int
    } else {
        0int
    }) + document.before.len() + 2 + items_events(document.items) + document.gap.len()
        + document.after.len()
}

/// How many bytes of text a document holds.
pub open spec fn text_bytes(document: Document) -> int {
    piece::pieces_text(document.before).len() + items_bytes(document.items) + piece::pieces_text(
        document.gap,
    ).len() + piece::pieces_text(document.after).len()
}

/// Whether every character of a text may stand in an XML document.
pub open spec fn holds_xml_characters(s: Seq<u8>) -> bool {
    valid_utf8(s) && forall|i: int|
        0 <= i < decode_utf8(s).len() ==> piece::is_xml_character(#[trigger] decode_utf8(s)[i] as u32)
}

/// Whether a document is well formed, and within the limits on bytes, events and
/// text.
pub open spec fn is_document(document: Document) -> bool {
    &&& document.declaration.len() == 0 || is_known_declaration(document.declaration)
    &&& piece::are_blank(document.before)
    &&& document.namespace.len() == 0 || is_known_namespace(document.namespace)
    &&& are_items(document.items)
    &&& piece::are_blank(document.gap)
    &&& piece::are_blank(document.after)
    &&& events(document) <= 32768
    &&& text_bytes(document) <= 3_145_728
    &&& written(document).len() <= 4_194_304
    &&& holds_xml_characters(written(document))
}

/// A declaration ends where it first can.
proof fn lemma_declarations(s: Seq<u8>)
    requires
        is_known_declaration(s),
    ensures
        7 <= s.len() <= 96,
        s[0] == 0x3c,
        s[1] == 0x3f,
        s[2] == 0x78,
        s[3] == 0x6d,
        s[4] == 0x6c,
        s[s.len() - 2] == 0x3f,
        s[s.len() - 1] == 0x3e,
        forall|i: int| 2 <= i < s.len() - 2 ==> #[trigger] s[i] != 0x3f,
{
    if s == "<?xml version=\"1.0\"?>".spec_bytes() {
        reveal_strlit("<?xml version=\"1.0\"?>");
        is_ascii_chars_encode_utf8("<?xml version=\"1.0\"?>"@);
    } else if s == "<?xml version=\"1.0\" encoding=\"UTF-8\"?>".spec_bytes() {
        reveal_strlit("<?xml version=\"1.0\" encoding=\"UTF-8\"?>");
        is_ascii_chars_encode_utf8("<?xml version=\"1.0\" encoding=\"UTF-8\"?>"@);
    } else if s == "<?xml version=\"1.0\" encoding=\"utf-8\"?>".spec_bytes() {
        reveal_strlit("<?xml version=\"1.0\" encoding=\"utf-8\"?>");
        is_ascii_chars_encode_utf8("<?xml version=\"1.0\" encoding=\"utf-8\"?>"@);
    } else if s == "<?xml version='1.0'?>".spec_bytes() {
        reveal_strlit("<?xml version='1.0'?>");
        is_ascii_chars_encode_utf8("<?xml version='1.0'?>"@);
    } else if s == "<?xml version='1.0' encoding='UTF-8'?>".spec_bytes() {
        reveal_strlit("<?xml version='1.0' encoding='UTF-8'?>");
        is_ascii_chars_encode_utf8("<?xml version='1.0' encoding='UTF-8'?>"@);
    } else {
        reveal_strlit("<?xml version='1.0' encoding='utf-8'?>");
        is_ascii_chars_encode_utf8("<?xml version='1.0' encoding='utf-8'?>"@);
    }
}

/// A declaration is read.
proof fn lemma_declaration_reads(declaration: Seq<u8>, rest: Seq<u8>)
    requires
        is_known_declaration(declaration),
    ensures
        list::read(list::empty_page(), declaration + rest, 0) == list::read(
            render::counted(list::empty_page()),
            rest,
            declaration.len() as int,
        ),
{
    let s = declaration + rest;
    let n = declaration.len() as int;
    lemma_declarations(declaration);
    reveal_strlit("?>");
    is_ascii_chars_encode_utf8("?>"@);
    reveal_strlit("<?xml");
    is_ascii_chars_encode_utf8("<?xml"@);
    let mark = "?>".spec_bytes();
    assert(s.subrange(0, 5) =~= "<?xml".spec_bytes());
    assert(s.subrange(n - 2, n) =~= mark);
    assert forall|j: int| 0 <= j < n - 2 implies !bytes::occurs_at(s, mark, j) by {
        if bytes::occurs_at(s, mark, j) {
            assert(s.subrange(j, j + 2)[0] == mark[0]);
            assert(s.subrange(j, j + 2)[1] == mark[1]);
            assert(s[j] == declaration[j]);
            assert(s[j + 1] == declaration[j + 1]);
        }
    }
    bytes::lemma_first_index(s, mark, n - 2);
    assert(bytes::before(s, n) =~= declaration);
    assert(bytes::after(s, n) =~= rest);
    reveal(list::read);
    let start = list::empty_page();
    assert(list::with_event(start) == Ok::<list::PageState, HttpError>(render::counted(start)));
}

proof fn lemma_namespaces(s: Seq<u8>)
    requires
        is_known_namespace(s),
    ensures
        1 <= s.len() <= 100,
        s[0] == 0x20,
        s.last() != 0x2f,
        forall|i: int| 0 <= i < s.len() ==> #[trigger] s[i] != 0x3e,
{
    if s == " xmlns=\"http://s3.amazonaws.com/doc/2006-03-01/\"".spec_bytes() {
        reveal_strlit(" xmlns=\"http://s3.amazonaws.com/doc/2006-03-01/\"");
        is_ascii_chars_encode_utf8(" xmlns=\"http://s3.amazonaws.com/doc/2006-03-01/\""@);
    } else {
        reveal_strlit(" xmlns='http://s3.amazonaws.com/doc/2006-03-01/'");
        is_ascii_chars_encode_utf8(" xmlns='http://s3.amazonaws.com/doc/2006-03-01/'"@);
    }
}

/// The start of the root.
spec fn root_tag(namespace: Seq<u8>) -> Seq<u8> {
    seq![0x3cu8] + node::tag(Element::Root) + namespace + seq![0x3eu8]
}

/// The start of the root with its namespace is one token.
proof fn lemma_root_token(namespace: Seq<u8>, rest: Seq<u8>, cursor: int)
    requires
        is_known_namespace(namespace),
    ensures
        xml::token_at(root_tag(namespace) + rest, cursor) == Ok::<
            (xml::TokenModel, int),
            HttpError,
        >(
            (
                xml::TokenModel::Start {
                    name: element::element_name(Element::Root),
                    attributes: 1,
                    self_closing: false,
                },
                root_tag(namespace).len() as int,
            ),
        ),
{
    let element = Element::Root;
    let name = node::tag(element);
    let s = root_tag(namespace) + rest;
    let close = '>' as u8;
    assert(close == 0x3e);
    let mark = seq![close];
    let inner = name + namespace;
    let opened = seq![0x3cu8] + inner;
    let p = |b: u8| xml::is_not_whitespace(b);
    node::lemma_elements(element);
    lemma_namespaces(namespace);
    render::lemma_element_name(element);
    assert(s =~= opened + mark + rest);
    assert(s[0] == 0x3c);
    assert(s[1] == name[0]);
    render::lemma_first_bytes(s);
    assert(bytes::is_free_of(opened, 0x3e)) by {
        assert forall|i: int| 0 <= i < opened.len() implies #[trigger] opened[i] != 0x3e by {
            if 1 <= i < 1 + name.len() {
                assert(name[i - 1] != 0x3e);
            } else if i >= 1 + name.len() {
                assert(opened[i] == namespace[i - 1 - name.len()]);
            }
        }
    }
    bytes::lemma_split_first(opened, mark, rest);
    assert(s.subrange(1, opened.len() as int) =~= inner);
    assert(inner.last() == namespace.last());
    render::lemma_span_run(name, namespace, p);
    assert(bytes::before(inner, name.len() as int) =~= name);
    assert(bytes::after(inner, name.len() as int) =~= namespace);
    assert(name.len() == 16) by {
        element::lemma_names(element);
    }
}

/// The start of the root is read.
proof fn lemma_root_reads(
    page: list::PageState,
    namespace: Seq<u8>,
    rest: Seq<u8>,
    cursor: int,
)
    requires
        namespace.len() == 0 || is_known_namespace(namespace),
        !page.root_closed,
        page.stack == Seq::<Element>::empty(),
        0 <= page.events < 32768,
    ensures
        list::read(page, root_tag(namespace) + rest, cursor) == list::read(
            list::PageState {
                stack: seq![Element::Root],
                text: Seq::empty(),
                ..render::counted(page)
            },
            rest,
            cursor + root_tag(namespace).len(),
        ),
{
    let element = Element::Root;
    let name = element::element_name(element);
    let s = root_tag(namespace) + rest;
    let started = list::PageState {
        stack: seq![Element::Root],
        text: Seq::empty(),
        ..render::counted(page)
    };
    node::lemma_elements(element);
    element::lemma_child(list::open_element(page), element);
    assert(list::open_element(render::counted(page)) == list::open_element(page));
    assert(page.stack.push(element) =~= seq![Element::Root]);
    if namespace.len() == 0 {
        assert(s =~= render::start_tag(element) + rest);
        assert(root_tag(namespace) =~= render::start_tag(element));
        render::lemma_start_reads(page, element, rest, cursor);
        assert(list::with_start(render::counted(page), name, 0) == Ok::<
            list::PageState,
            HttpError,
        >(started));
    } else {
        lemma_root_token(namespace, rest, cursor);
        reveal(list::read);
        assert(list::with_event(page) == Ok::<list::PageState, HttpError>(render::counted(page)));
        assert(list::with_start(render::counted(page), name, 1) == Ok::<
            list::PageState,
            HttpError,
        >(started));
        assert(bytes::after(s, root_tag(namespace).len() as int) =~= rest);
    }
}

/// The page in which the root of a document is open.
spec fn root_page(document: Document) -> list::PageState {
    let start = list::empty_page();
    list::PageState {
        stack: seq![Element::Root],
        total_text_bytes: piece::pieces_text(document.before).len() as int,
        events: (if document.declaration.len() > 0 {
            1int
        } else {
            0int
        }) + document.before.len() + 1,
        ..start
    }
}

/// A document is read up to its items.
proof fn lemma_document_opens(document: Document, inside: Seq<u8>)
    requires
        is_document(document),
    ensures
        ({
            let opening = document.declaration + piece::written_pieces(document.before) + root_tag(
                document.namespace,
            );
            list::read(list::empty_page(), opening + inside, 0) == list::read(
                root_page(document),
                inside,
                opening.len() as int,
            )
        }),
{
    let start = list::empty_page();
    let opening = document.declaration + piece::written_pieces(document.before) + root_tag(
        document.namespace,
    );
    let root = root_tag(document.namespace) + inside;
    let all = piece::written_pieces(document.before) + root;
    lemma_items_are_natural(document.items);
    assert(opening + inside =~= document.declaration + all);
    let (declared, first) = if document.declaration.len() > 0 {
        lemma_declaration_reads(document.declaration, all);
        (render::counted(start), document.declaration.len() as int)
    } else {
        assert(document.declaration + all =~= all);
        (start, 0int)
    };
    assert(root[0] == 0x3c);
    piece::lemma_blanks_read(declared, document.before, root, first);
    let passed = piece::tallied(declared, piece::pieces_text(document.before), document.before.len() as int);
    let second = first + piece::written_pieces(document.before).len();
    lemma_root_reads(passed, document.namespace, inside, second);
    let opened = list::PageState {
        stack: seq![Element::Root],
        text: Seq::empty(),
        ..render::counted(passed)
    };
    assert(opened == root_page(document));
    assert(opening.len() == second + root_tag(document.namespace).len());
}

/// A document is read from its items on.
proof fn lemma_document_closes(document: Document, page: list::PageState, cursor: int)
    requires
        piece::are_blank(document.gap),
        piece::are_blank(document.after),
        page.stack == seq![Element::Root],
        0 <= page.events,
        page.events + document.gap.len() + 1 + document.after.len() <= 32768,
        0 <= page.total_text_bytes,
        page.total_text_bytes + piece::pieces_text(document.gap).len() + piece::pieces_text(document.after).len()
            <= 3_145_728,
    ensures
        ({
            let closing = piece::written_pieces(document.gap) + (render::end_tag(Element::Root)
                + piece::written_pieces(document.after));
            list::read(page, closing, cursor) matches Ok(last) && last == (list::PageState {
                stack: Seq::empty(),
                text: Seq::empty(),
                root_closed: true,
                events: last.events,
                total_text_bytes: last.total_text_bytes,
                ..page
            })
        }),
{
    let closing = render::end_tag(Element::Root) + piece::written_pieces(document.after);
    assert(closing[0] == 0x3c);
    assert(list::open_element(page) == Some(Element::Root));
    piece::lemma_blanks_read(page, document.gap, closing, cursor);
    let filled = piece::tallied(page, piece::pieces_text(document.gap), document.gap.len() as int);
    let opened = cursor + piece::written_pieces(document.gap).len();
    render::lemma_end_reads(filled, Element::Root, piece::written_pieces(document.after), opened);
    let closed = list::PageState {
        stack: filled.stack.drop_last(),
        text: Seq::empty(),
        root_closed: true,
        ..render::counted(filled)
    };
    assert(list::with_end(render::counted(filled), element::element_name(Element::Root)) == Ok::<
        list::PageState,
        HttpError,
    >(closed));
    assert(closed.stack =~= Seq::<Element>::empty());
    let none = Seq::<u8>::empty();
    piece::lemma_blanks_read(
        closed,
        document.after,
        none,
        opened + render::end_tag(Element::Root).len(),
    );
    assert(piece::written_pieces(document.after) + none =~= piece::written_pieces(document.after));
    reveal(list::read);
}

/// Pages that agree on their fields and objects hold the same.
proof fn lemma_alike(
    items: Seq<ItemEntry>,
    start: list::PageState,
    other: list::PageState,
    next: list::PageState,
    last: list::PageState,
)
    requires
        forall|e: Element| #[trigger] page_slot(other, e) == page_slot(start, e),
        other.objects == start.objects,
        forall|e: Element| #[trigger] page_slot(last, e) == page_slot(next, e),
        last.objects == next.objects,
    ensures
        are_good(other, items) == are_good(start, items),
        holds(next, other, items) == holds(last, start, items),
{
    reveal(are_good);
    reveal(holds);
    assert forall|e: Element| are_page_texts(other, e, #[trigger] item_texts(items, e))
        == are_page_texts(start, e, item_texts(items, e)) by {
        assert(page_slot(other, e) == page_slot(start, e));
    }
    if holds(next, other, items) {
        assert forall|e: Element| node::is_of_page(e) implies #[trigger] page_slot(last, e) == (
        if item_texts(items, e).len() > 0 {
            Some(item_texts(items, e)[0])
        } else {
            page_slot(start, e)
        }) by {
            assert(page_slot(last, e) == page_slot(next, e));
            assert(page_slot(other, e) == page_slot(start, e));
        }
    }
    if holds(last, start, items) {
        assert forall|e: Element| node::is_of_page(e) implies #[trigger] page_slot(next, e) == (
        if item_texts(items, e).len() > 0 {
            Some(item_texts(items, e)[0])
        } else {
            page_slot(other, e)
        }) by {
            assert(page_slot(last, e) == page_slot(next, e));
            assert(page_slot(other, e) == page_slot(start, e));
        }
    }
}

/// What stands before the items of a document.
spec fn opening(document: Document) -> Seq<u8> {
    document.declaration + piece::written_pieces(document.before) + root_tag(document.namespace)
}

/// What stands behind the items of a document.
spec fn closing(document: Document) -> Seq<u8> {
    piece::written_pieces(document.gap) + (render::end_tag(Element::Root) + piece::written_pieces(document.after))
}

proof fn lemma_assoc(a: Seq<u8>, b: Seq<u8>, c: Seq<u8>)
    ensures
        (a + b) + c == a + (b + c),
{
    assert((a + b) + c =~= a + (b + c));
}

/// Four texts behind another may be taken together.
proof fn lemma_grouped(s: Seq<u8>, a: Seq<u8>, b: Seq<u8>, c: Seq<u8>, d: Seq<u8>)
    ensures
        s + a + b + c + d == s + (a + b + c + d),
{
    lemma_assoc(s, a, b);
    lemma_assoc(s, a + b, c);
    lemma_assoc(s, a + b + c, d);
}

proof fn lemma_written_parts(document: Document)
    ensures
        written(document) == opening(document) + (written_items(document.items) + closing(
            document,
        )),
{
    node::lemma_elements(Element::Root);
    let name = node::tag(Element::Root);
    let left = seq![0x3cu8];
    let slash = seq![0x3cu8, 0x2fu8];
    let right = seq![0x3eu8];
    let first = document.declaration + piece::written_pieces(document.before);
    let middle = written_items(document.items);
    let gap = piece::written_pieces(document.gap);
    let last = piece::written_pieces(document.after);
    let end = slash + name + right;
    let head = first + left + name + document.namespace + right;
    lemma_grouped(first, left, name, document.namespace, right);
    assert(head == opening(document));
    lemma_grouped(head + middle + gap, slash, name, right, last);
    lemma_assoc(head, middle, gap);
    lemma_assoc(head, middle + gap, end + last);
    lemma_assoc(middle, gap, end + last);
}

/// The items of a document are read.
proof fn lemma_document_items(document: Document)
    requires
        is_document(document),
    ensures
        ({
            let opened = root_page(document);
            let items = document.items;
            let read = list::read(list::empty_page(), written(document), 0);
            let cursor = (opening(document).len() + written_items(items).len()) as int;
            &&& read == (match after_items(opened, items) {
                Ok(next) => list::read(next, closing(document), cursor),
                Err(error) => Err(error),
            })
            &&& after_items(opened, items) matches Ok(next) ==> {
                &&& is_like(next, opened)
                &&& next.events == opened.events + items_events(items)
                &&& next.total_text_bytes == opened.total_text_bytes + items_bytes(items)
            }
        }),
{
    let items = document.items;
    lemma_items_are_natural(items);
    lemma_written_parts(document);
    lemma_document_opens(document, written_items(items) + closing(document));
    lemma_items_read(
        root_page(document),
        items,
        closing(document),
        opening(document).len() as int,
    );
}

proof fn lemma_root_slots(document: Document)
    ensures
        forall|e: Element| #[trigger]
            page_slot(root_page(document), e) == page_slot(list::empty_page(), e),
        root_page(document).objects == list::empty_page().objects,
{
}

/// Two pages that differ in what is counted and open only hold the same fields.
proof fn lemma_closed_slots(next: list::PageState, last: list::PageState)
    requires
        last == (list::PageState {
            stack: Seq::empty(),
            text: Seq::empty(),
            root_closed: true,
            events: last.events,
            total_text_bytes: last.total_text_bytes,
            ..next
        }),
    ensures
        forall|e: Element| #[trigger] page_slot(last, e) == page_slot(next, e),
        last.objects == next.objects,
{
}

/// What is left to read behind the items of a document.
proof fn lemma_document_ends(document: Document, next: list::PageState, cursor: int)
    requires
        is_document(document),
        is_like(next, root_page(document)),
        next.events == root_page(document).events + items_events(document.items),
        next.total_text_bytes == root_page(document).total_text_bytes + items_bytes(
            document.items,
        ),
    ensures
        list::read(next, closing(document), cursor) matches Ok(last) && {
            &&& forall|e: Element| #[trigger] page_slot(last, e) == page_slot(next, e)
            &&& last.objects == next.objects
            &&& last.root_closed
            &&& last.stack.len() == 0
            &&& last.object is None
        },
{
    lemma_items_are_natural(document.items);
    lemma_document_closes(document, next, cursor);
    let last = list::read(next, closing(document), cursor)->Ok_0;
    lemma_closed_slots(next, last);
}

/// Whether a page was read to its end.
spec fn is_whole(page: list::PageState) -> bool {
    page.root_closed && page.stack.len() == 0 && page.object is None
}

/// What is read of a document whose items can be read.
proof fn lemma_good_document(document: Document)
    requires
        is_document(document),
        after_items(root_page(document), document.items) is Ok,
    ensures
        list::read(list::empty_page(), written(document), 0) matches Ok(page) && holds(
            page,
            list::empty_page(),
            document.items,
        ) && is_whole(page),
        are_good(list::empty_page(), document.items),
{
    let items = document.items;
    let start = list::empty_page();
    let opened = root_page(document);
    let next = after_items(opened, items)->Ok_0;
    let cursor = (opening(document).len() + written_items(items).len()) as int;
    lemma_document_items(document);
    assert(are_items(items));
    lemma_items(opened, items);
    lemma_document_ends(document, next, cursor);
    let last = list::read(next, closing(document), cursor)->Ok_0;
    lemma_root_slots(document);
    lemma_alike(items, start, opened, next, last);
}

/// What is read of a document whose items cannot be read.
proof fn lemma_bad_document(document: Document)
    requires
        is_document(document),
        after_items(root_page(document), document.items) is Err,
    ensures
        list::read(list::empty_page(), written(document), 0) is Err,
        !are_good(list::empty_page(), document.items),
{
    let start = list::empty_page();
    lemma_document_items(document);
    assert(are_items(document.items));
    lemma_items(root_page(document), document.items);
    lemma_root_slots(document);
    lemma_alike(document.items, start, root_page(document), start, start);
}

/// A document is read as its items say.
proof fn lemma_document_reads(document: Document)
    requires
        is_document(document),
    ensures
        list::read(list::empty_page(), written(document), 0) is Ok <==> are_good(
            list::empty_page(),
            document.items,
        ),
        list::read(list::empty_page(), written(document), 0) matches Ok(page) ==> holds(
            page,
            list::empty_page(),
            document.items,
        ) && is_whole(page),
{
    if after_items(root_page(document), document.items) is Ok {
        lemma_good_document(document);
    } else {
        lemma_bad_document(document);
    }
}

/// Whether a document says that the listing of a bucket, behind a prefix, of at
/// most so many keys and from a token on, is this page: each of its fields comes
/// once at most and says so, and its objects are listed in their order.
pub open spec fn says(
    document: Document,
    page: list::PageModel,
    bucket: Seq<u8>,
    prefix: Seq<u8>,
    max_keys: u32,
    token: Option<Seq<u8>>,
) -> bool {
    let items = document.items;
    &&& item_texts(items, Element::Name) == seq![bucket]
    &&& item_texts(items, Element::Prefix) == seq![prefix]
    &&& item_texts(items, Element::KeyCount) == seq![number::decimal(page.objects.len())]
    &&& item_texts(items, Element::MaxKeys) == seq![number::decimal(max_keys as nat)]
    &&& item_texts(items, Element::IsTruncated) == seq![
        if page.is_truncated {
            "true".spec_bytes()
        } else {
            "false".spec_bytes()
        },
    ]
    &&& item_texts(items, Element::ContinuationToken) == optional(token)
    &&& item_texts(items, Element::NextContinuationToken) == optional(
        page.next_continuation_token,
    )
    &&& item_objects(items).len() == page.objects.len()
    &&& forall|i: int|
        0 <= i < page.objects.len() ==> lists(#[trigger] item_objects(items)[i], page.objects[i])
}

/// Whether a page answers a request: it lists no more objects than were asked
/// for, their keys begin with the prefix and differ, and it comes with a token
/// that is not blank exactly where the listing goes on.
pub open spec fn answers(page: list::PageModel, prefix: Seq<u8>, max_keys: u32) -> bool {
    &&& page.objects.len() <= max_keys
    &&& page.objects.len() <= 1000
    &&& forall|i: int|
        0 <= i < page.objects.len() ==> {
            let key = #[trigger] page.objects[i].key;
            key.len() >= prefix.len() && key.subrange(0, prefix.len() as int) == prefix
        }
    &&& forall|i: int, j: int|
        0 <= i < j < page.objects.len() ==> #[trigger] page.objects[i].key
            != #[trigger] page.objects[j].key
    &&& page.is_truncated == (page.next_continuation_token is Some)
    &&& page.next_continuation_token matches Some(next) ==> next.len() > 0
}

/// A document is read as exactly the page that it says, where that answers the
/// request, and is refused otherwise. The order of fields, blanks between
/// elements, the declaration, the namespace, storage classes, elements that close
/// themselves, and how characters are written, by themselves or by any reference
/// to them, do not matter.
pub proof fn law_documents_are_read_as_they_say(
    document: Document,
    page: list::PageModel,
    bucket: Seq<u8>,
    prefix: Seq<u8>,
    max_keys: u32,
    token: Option<Seq<u8>>,
)
    requires
        is_document(document),
    ensures
        list::page_of(written(document), bucket, prefix, max_keys, token) == Ok::<
            list::PageModel,
            HttpError,
        >(page) <==> says(document, page, bucket, prefix, max_keys, token) && answers(
            page,
            prefix,
            max_keys,
        ),
{
    let body = written(document);
    let items = document.items;
    let start = list::empty_page();
    lemma_document_reads(document);
    assert(list::is_xml_text(body)) by {
        assert forall|i: int| 0 <= i < decode_utf8(body).len() implies xml::is_xml_scalar(
            #[trigger] decode_utf8(body)[i] as u32,
        ) by {
            assert(piece::is_xml_character(decode_utf8(body)[i] as u32));
        }
    }
    if list::page_of(body, bucket, prefix, max_keys, token) == Ok::<list::PageModel, HttpError>(
        page,
    ) {
        let state = list::read(start, body, 0)->Ok_0;
        lemma_page_says(document, state, page, bucket, prefix, max_keys, token);
    }
    if says(document, page, bucket, prefix, max_keys, token) && answers(page, prefix, max_keys) {
        lemma_saying_page(document, page, bucket, prefix, max_keys, token);
    }
}

/// A page that was read is what its document says.
proof fn lemma_page_says(
    document: Document,
    state: list::PageState,
    page: list::PageModel,
    bucket: Seq<u8>,
    prefix: Seq<u8>,
    max_keys: u32,
    token: Option<Seq<u8>>,
)
    requires
        are_good(list::empty_page(), document.items),
        holds(state, list::empty_page(), document.items),
        list::finished(state, bucket, prefix, max_keys, token) == Ok::<list::PageModel, HttpError>(
            page,
        ),
    ensures
        says(document, page, bucket, prefix, max_keys, token),
        answers(page, prefix, max_keys),
{
    reveal(are_good);
    reveal(holds);
    let items = document.items;
    let start = list::empty_page();
    assert(are_page_texts(start, Element::Name, item_texts(items, Element::Name)));
    assert(are_page_texts(start, Element::Prefix, item_texts(items, Element::Prefix)));
    assert(are_page_texts(start, Element::KeyCount, item_texts(items, Element::KeyCount)));
    assert(are_page_texts(start, Element::MaxKeys, item_texts(items, Element::MaxKeys)));
    assert(are_page_texts(start, Element::IsTruncated, item_texts(items, Element::IsTruncated)));
    assert(are_page_texts(
        start,
        Element::ContinuationToken,
        item_texts(items, Element::ContinuationToken),
    ));
    assert(are_page_texts(
        start,
        Element::NextContinuationToken,
        item_texts(items, Element::NextContinuationToken),
    ));
    assert(page_slot(state, Element::Name) == Some(bucket));
    assert(page_slot(state, Element::Prefix) == Some(prefix));
    assert(page_slot(state, Element::KeyCount) == Some(number::decimal(page.objects.len())));
    assert(page_slot(state, Element::MaxKeys) == Some(number::decimal(max_keys as nat)));
    assert(page_slot(state, Element::IsTruncated) == Some(render::flag(page.is_truncated)));
    assert(page_slot(state, Element::ContinuationToken) == token);
    assert(page_slot(state, Element::NextContinuationToken) == page.next_continuation_token);
    assert(item_texts(items, Element::Name) =~= seq![bucket]);
    assert(item_texts(items, Element::Prefix) =~= seq![prefix]);
    assert(item_texts(items, Element::KeyCount) =~= seq![number::decimal(page.objects.len())]);
    assert(item_texts(items, Element::MaxKeys) =~= seq![number::decimal(max_keys as nat)]);
    assert(item_texts(items, Element::IsTruncated) =~= seq![render::flag(page.is_truncated)]);
    assert(item_texts(items, Element::ContinuationToken) =~= optional(token));
    assert(item_texts(items, Element::NextContinuationToken) =~= optional(
        page.next_continuation_token,
    ));
    assert forall|i: int| 0 <= i < page.objects.len() implies lists(
        #[trigger] item_objects(items)[i],
        page.objects[i],
    ) by {
        assert(lists(item_objects(items)[i], state.objects[start.objects.len() + i]));
    }
    assert forall|i: int| 0 <= i < page.objects.len() implies {
        let key = #[trigger] page.objects[i].key;
        key.len() >= prefix.len() && key.subrange(0, prefix.len() as int) == prefix
    } by {
        assert(bytes::starts_with(page.objects[i].key, prefix));
    }
}

/// A page that a document says is read from it.
proof fn lemma_saying_page(
    document: Document,
    page: list::PageModel,
    bucket: Seq<u8>,
    prefix: Seq<u8>,
    max_keys: u32,
    token: Option<Seq<u8>>,
)
    requires
        is_document(document),
        says(document, page, bucket, prefix, max_keys, token),
        answers(page, prefix, max_keys),
    ensures
        list::read(list::empty_page(), written(document), 0) matches Ok(state) && list::finished(
            state,
            bucket,
            prefix,
            max_keys,
            token,
        ) == Ok::<list::PageModel, HttpError>(page),
{
    reveal(are_good);
    reveal(holds);
    let items = document.items;
    let start = list::empty_page();
    lemma_document_reads(document);
    assert(are_good(start, items)) by {
        assert(is_number(number::decimal(page.objects.len()), u32::MAX as nat));
        assert(is_number(number::decimal(max_keys as nat), u32::MAX as nat));
        assert(item_texts(items, Element::KeyCount)[0] == number::decimal(page.objects.len()));
        assert(item_texts(items, Element::MaxKeys)[0] == number::decimal(max_keys as nat));
        assert(item_texts(items, Element::IsTruncated)[0] == render::flag(page.is_truncated));
        assert forall|e: Element| node::is_of_page(e) implies are_page_texts(
            start,
            e,
            #[trigger] item_texts(items, e),
        ) by {}
        assert forall|i: int| 0 <= i < item_objects(items).len() implies is_listing(
            #[trigger] item_objects(items)[i],
        ) by {
            assert(lists(item_objects(items)[i], page.objects[i]));
        }
    }
    let state = list::read(start, written(document), 0)->Ok_0;
    assert(holds(state, start, items));
    assert(page_slot(state, Element::Name) == Some(item_texts(items, Element::Name)[0]));
    assert(page_slot(state, Element::Prefix) == Some(item_texts(items, Element::Prefix)[0]));
    assert(page_slot(state, Element::KeyCount) == Some(item_texts(items, Element::KeyCount)[0]));
    assert(page_slot(state, Element::MaxKeys) == Some(item_texts(items, Element::MaxKeys)[0]));
    assert(page_slot(state, Element::IsTruncated) == Some(
        item_texts(items, Element::IsTruncated)[0],
    ));
    assert(page_slot(state, Element::ContinuationToken) == token);
    assert(page_slot(state, Element::NextContinuationToken) == page.next_continuation_token);
    lemma_decimals_differ(page.objects.len(), state.key_count->0 as nat);
    lemma_decimals_differ(max_keys as nat, state.max_keys->0 as nat);
    render::lemma_flags();
    assert(state.is_truncated == Some(page.is_truncated));
    assert(state.objects =~= page.objects) by {
        assert forall|i: int| 0 <= i < page.objects.len() implies #[trigger] state.objects[i]
            == page.objects[i] by {
            assert(lists(item_objects(items)[i], state.objects[start.objects.len() + i]));
            lemma_lists_one(item_objects(items)[i], state.objects[i], page.objects[i]);
        }
    }
    assert(list::keys_are_distinct(page.objects, prefix)) by {
        assert forall|i: int| 0 <= i < page.objects.len() implies bytes::starts_with(
            #[trigger] page.objects[i].key,
            prefix,
        ) by {
            let key = page.objects[i].key;
            assert(key.subrange(0, prefix.len() as int) == prefix);
        }
    }
}

} // verus!
