//! Pieces of text in listings: characters, and references to them.

use crate::bytes;
use crate::error::HttpError;
use crate::list;
use crate::number;
use crate::render;
use crate::xml;
use vstd::prelude::*;
use vstd::string::*;
use vstd::utf8::*;

verus! {

/// A piece of text: characters as they are, or a reference to one.
pub enum Piece {
    Plain { text: Seq<u8> },
    Reference { name: Seq<u8>, scalar: u32 },
}

/// Whether a character may stand in an XML document.
pub open spec fn is_xml_character(c: u32) -> bool {
    ||| c == 0x09
    ||| c == 0x0a
    ||| c == 0x0d
    ||| 0x20 <= c <= 0xd7ff
    ||| 0xe000 <= c <= 0xfffd
    ||| 0x10000 <= c <= 0x10ffff
}

/// Whether digits write a number, perhaps behind a plus sign.
pub open spec fn writes_signed(digits: Seq<u8>, radix: nat, n: nat) -> bool {
    number::writes(digits, radix, n) || (digits.len() > 0 && digits[0] == 0x2b && number::writes(
        bytes::after(digits, 1),
        radix,
        n,
    ))
}

/// Whether a reference is one to this character: one of the five names that XML
/// knows, or the character's number in decimal or hexadecimal digits.
pub open spec fn refers(name: Seq<u8>, c: u32) -> bool {
    ||| name == "amp".spec_bytes() && c == 0x26
    ||| name == "lt".spec_bytes() && c == 0x3c
    ||| name == "gt".spec_bytes() && c == 0x3e
    ||| name == "apos".spec_bytes() && c == 0x27
    ||| name == "quot".spec_bytes() && c == 0x22
    ||| is_xml_character(c) && name.len() > 1 && name[0] == 0x23 && writes_signed(
        bytes::after(name, 1),
        10,
        c as nat,
    )
    ||| is_xml_character(c) && name.len() > 2 && name[0] == 0x23 && name[1] == 0x78
        && writes_signed(bytes::after(name, 2), 16, c as nat)
}

/// Whether a piece is well formed: characters as they are hold no angle bracket
/// that opens, no ampersand and no end of a character data section, and a
/// reference has at most fifteen characters.
pub open spec fn is_piece(piece: Piece) -> bool {
    match piece {
        Piece::Plain { text } => {
            &&& text.len() > 0
            &&& forall|i: int| 0 <= i < text.len() ==> #[trigger] text[i] != 0x3c && text[i] != 0x26
            &&& forall|i: int|
                0 <= i < text.len() - 2 ==> !(#[trigger] text[i] == 0x5d && text[i + 1] == 0x5d
                    && text[i + 2] == 0x3e)
        },
        Piece::Reference { name, scalar } => refers(name, scalar) && name.len() <= 15,
    }
}

/// What a piece stands for.
pub open spec fn piece_text(piece: Piece) -> Seq<u8> {
    match piece {
        Piece::Plain { text } => text,
        Piece::Reference { scalar, .. } => encode_scalar(scalar),
    }
}

/// How a piece is written.
pub open spec fn written_piece(piece: Piece) -> Seq<u8> {
    match piece {
        Piece::Plain { text } => text,
        Piece::Reference { name, .. } => seq![0x26u8] + name + seq![0x3bu8],
    }
}

/// Whether pieces are well formed, and no two in a row are plain.
pub open spec fn are_pieces(pieces: Seq<Piece>) -> bool {
    &&& forall|i: int| 0 <= i < pieces.len() ==> is_piece(#[trigger] pieces[i])
    &&& forall|i: int|
        0 <= i < pieces.len() - 1 ==> !(#[trigger] pieces[i] is Plain && pieces[i + 1] is Plain)
}

/// What pieces stand for.
pub open spec fn pieces_text(pieces: Seq<Piece>) -> Seq<u8>
    decreases pieces.len(),
{
    if pieces.len() == 0 {
        Seq::empty()
    } else {
        piece_text(pieces[0]) + pieces_text(pieces.drop_first())
    }
}

/// How pieces are written.
pub open spec fn written_pieces(pieces: Seq<Piece>) -> Seq<u8>
    decreases pieces.len(),
{
    if pieces.len() == 0 {
        Seq::empty()
    } else {
        written_piece(pieces[0]) + written_pieces(pieces.drop_first())
    }
}

/// Whether pieces stand for spaces, tabs and line ends only.
pub open spec fn are_blank(pieces: Seq<Piece>) -> bool {
    let text = pieces_text(pieces);
    &&& are_pieces(pieces)
    &&& forall|i: int|
        0 <= i < text.len() ==> (#[trigger] text[i] == 0x20 || text[i] == 0x09 || text[i] == 0x0a
            || text[i] == 0x0d)
}

proof fn lemma_signed_digits(digits: Seq<u8>, radix: nat, c: u32)
    requires
        2 <= radix <= 16,
    ensures
        writes_signed(digits, radix, c as nat) <==> number::parsed(
            number::unsigned(digits),
            radix,
            u32::MAX as nat,
        ) == Some(c as nat),
{
    let plus = '+' as u8;
    assert(plus == 0x2b);
    number::law_written_numbers_are_read(digits, radix, c as nat, u32::MAX as nat);
    number::law_written_numbers_are_read(
        number::unsigned(digits),
        radix,
        c as nat,
        u32::MAX as nat,
    );
    if digits.len() > 0 && digits[0] == plus && number::writes(digits, radix, c as nat) {
        assert(number::is_radix_digit(digits[0], radix));
    }
}

proof fn lemma_reference_names()
    ensures
        "amp".spec_bytes() == seq![0x61u8, 0x6du8, 0x70u8],
        "lt".spec_bytes() == seq![0x6cu8, 0x74u8],
        "gt".spec_bytes() == seq![0x67u8, 0x74u8],
        "apos".spec_bytes() == seq![0x61u8, 0x70u8, 0x6fu8, 0x73u8],
        "quot".spec_bytes() == seq![0x71u8, 0x75u8, 0x6fu8, 0x74u8],
        "#x".spec_bytes() == seq![0x23u8, 0x78u8],
        "#".spec_bytes() == seq![0x23u8],
{
    reveal_strlit("amp");
    is_ascii_chars_encode_utf8("amp"@);
    reveal_strlit("lt");
    is_ascii_chars_encode_utf8("lt"@);
    reveal_strlit("gt");
    is_ascii_chars_encode_utf8("gt"@);
    reveal_strlit("apos");
    is_ascii_chars_encode_utf8("apos"@);
    reveal_strlit("quot");
    is_ascii_chars_encode_utf8("quot"@);
    reveal_strlit("#x");
    is_ascii_chars_encode_utf8("#x"@);
    reveal_strlit("#");
    is_ascii_chars_encode_utf8("#"@);
    assert("amp".spec_bytes() =~= seq![0x61u8, 0x6du8, 0x70u8]);
    assert("lt".spec_bytes() =~= seq![0x6cu8, 0x74u8]);
    assert("gt".spec_bytes() =~= seq![0x67u8, 0x74u8]);
    assert("apos".spec_bytes() =~= seq![0x61u8, 0x70u8, 0x6fu8, 0x73u8]);
    assert("quot".spec_bytes() =~= seq![0x71u8, 0x75u8, 0x6fu8, 0x74u8]);
    assert("#x".spec_bytes() =~= seq![0x23u8, 0x78u8]);
    assert("#".spec_bytes() =~= seq![0x23u8]);
}

/// A reference stands for the character that it names, by a name or by a number,
/// and for no other.
pub proof fn law_references_stand_for_characters(name: Seq<u8>, c: u32)
    ensures
        xml::referred(name) == Some(c) <==> refers(name, c),
{
    lemma_reference_names();
    let hex = "#x".spec_bytes();
    let dec = "#".spec_bytes();
    let is_hex = name.len() >= 2 && name[0] == 0x23 && name[1] == 0x78;
    let is_dec = name.len() >= 1 && name[0] == 0x23;
    assert(bytes::starts_with(name, hex) <==> is_hex) by {
        if is_hex {
            assert(name.subrange(0, 2) =~= hex);
        }
        if bytes::starts_with(name, hex) {
            assert(name.subrange(0, 2)[0] == hex[0] && name.subrange(0, 2)[1] == hex[1]);
        }
    }
    assert(bytes::starts_with(name, dec) <==> is_dec) by {
        if is_dec {
            assert(name.subrange(0, 1) =~= dec);
        }
        if bytes::starts_with(name, dec) {
            assert(name.subrange(0, 1)[0] == dec[0]);
        }
    }
    if is_dec {
        lemma_signed_digits(bytes::after(name, 1), 10, c);
        if is_hex {
            lemma_signed_digits(bytes::after(name, 2), 16, c);
            let digits = bytes::after(name, 1);
            assert(digits[0] == 0x78);
            if number::writes(digits, 10, c as nat) {
                number::law_written_numbers_are_read(digits, 10, c as nat, u32::MAX as nat);
                assert(number::is_radix_digit(digits[0], 10));
            }
        }
    }
}

/// Digits hold no semicolons.
proof fn lemma_digits_hold_no_semicolon(digits: Seq<u8>, radix: nat, n: nat)
    requires
        2 <= radix <= 16,
        n <= u32::MAX,
        writes_signed(digits, radix, n),
    ensures
        bytes::is_free_of(digits, 0x3b),
{
    let plus = '+' as u8;
    assert(plus == 0x2b);
    lemma_signed_digits(digits, radix, n as u32);
    let plain = number::unsigned(digits);
    assert forall|i: int| 0 <= i < digits.len() implies #[trigger] digits[i] != 0x3b by {
        if digits[0] == plus {
            if i > 0 {
                assert(number::is_radix_digit(plain[i - 1], radix));
            }
        } else {
            assert(number::is_radix_digit(plain[i], radix));
        }
    }
}

proof fn lemma_reference_holds_no_semicolon(name: Seq<u8>, c: u32)
    requires
        refers(name, c),
    ensures
        bytes::is_free_of(name, 0x3b),
        name.len() >= 2,
{
    lemma_reference_names();
    if name.len() > 1 && name[0] == 0x23 && writes_signed(bytes::after(name, 1), 10, c as nat) {
        let digits = bytes::after(name, 1);
        lemma_digits_hold_no_semicolon(digits, 10, c as nat);
        assert forall|i: int| 0 <= i < name.len() implies #[trigger] name[i] != 0x3b by {
            if i > 0 {
                assert(digits[i - 1] != 0x3b);
            }
        }
    } else if name.len() > 2 && name[0] == 0x23 && name[1] == 0x78 && writes_signed(
        bytes::after(name, 2),
        16,
        c as nat,
    ) {
        let digits = bytes::after(name, 2);
        lemma_digits_hold_no_semicolon(digits, 16, c as nat);
        assert forall|i: int| 0 <= i < name.len() implies #[trigger] name[i] != 0x3b by {
            if i > 1 {
                assert(digits[i - 2] != 0x3b);
            }
        }
    }
}

/// A piece is one token.
proof fn lemma_piece_token(piece: Piece, rest: Seq<u8>, cursor: int)
    requires
        is_piece(piece),
        piece is Plain ==> rest.len() == 0 || rest[0] == 0x3c || rest[0] == 0x26,
    ensures
        xml::token_at(written_piece(piece) + rest, cursor) == Ok::<
            (xml::TokenModel, int),
            HttpError,
        >((xml::TokenModel::Text { text: piece_text(piece) }, written_piece(piece).len() as int)),
        written_piece(piece).len() > 0,
{
    let s = written_piece(piece) + rest;
    match piece {
        Piece::Plain { text } => {
            let p = |b: u8| xml::is_text_byte(b);
            assert forall|i: int| 0 <= i < text.len() implies p(#[trigger] text[i]) by {
                assert(text[i] != 0x3c && text[i] != 0x26);
            }
            assert(s[0] == text[0]);
            render::lemma_first_bytes(s);
            render::lemma_span_run(text, rest, p);
            assert(bytes::before(s, text.len() as int) =~= text);
            reveal_strlit("]]>");
            is_ascii_chars_encode_utf8("]]>"@);
            let mark = "]]>".spec_bytes();
            if bytes::contains(text, mark) {
                let i = choose|i: int| bytes::occurs_at(text, mark, i);
                let three = text.subrange(i, i + 3);
                assert(three[0] == mark[0] && three[1] == mark[1] && three[2] == mark[2]);
                assert(text[i] == 0x5d && text[i + 1] == 0x5d && text[i + 2] == 0x3e);
            }
        },
        Piece::Reference { name, scalar } => {
            let end = ';' as u8;
            assert(end == 0x3b);
            let mark = seq![end];
            let opened = seq![0x26u8] + name;
            lemma_reference_holds_no_semicolon(name, scalar);
            law_references_stand_for_characters(name, scalar);
            assert(s =~= opened + mark + rest);
            assert(s[0] == 0x26);
            render::lemma_first_bytes(s);
            assert(bytes::is_free_of(opened, 0x3b)) by {
                assert forall|i: int| 0 <= i < opened.len() implies #[trigger] opened[i] != 0x3b by {
                    if i > 0 {
                        assert(name[i - 1] != 0x3b);
                    }
                }
            }
            bytes::lemma_split_first(opened, mark, rest);
            assert(s.subrange(1, opened.len() as int) =~= name);
        },
    }
}

/// A token of text is read.
proof fn lemma_piece_reads(
    page: list::PageState,
    piece: Piece,
    rest: Seq<u8>,
    cursor: int,
)
    requires
        is_piece(piece),
        piece is Plain ==> rest.len() == 0 || rest[0] == 0x3c || rest[0] == 0x26,
        0 <= page.events < 32768,
    ensures
        list::read(page, written_piece(piece) + rest, cursor) == (match list::with_text(
            render::counted(page),
            piece_text(piece),
        ) {
            Ok(next) => list::read(next, rest, cursor + written_piece(piece).len()),
            Err(error) => Err(error),
        }),
{
    let s = written_piece(piece) + rest;
    reveal(list::read);
    lemma_piece_token(piece, rest, cursor);
    assert(list::with_event(page) == Ok::<list::PageState, HttpError>(render::counted(page)));
    assert(bytes::after(s, written_piece(piece).len() as int) =~= rest);
}

/// The page after pieces of text, apart from the text itself.
pub open spec fn tallied(page: list::PageState, text: Seq<u8>, events: int) -> list::PageState {
    list::PageState {
        total_text_bytes: page.total_text_bytes + text.len(),
        events: page.events + events,
        ..page
    }
}

proof fn lemma_pieces_tail(pieces: Seq<Piece>)
    requires
        are_pieces(pieces),
        pieces.len() > 0,
    ensures
        are_pieces(pieces.drop_first()),
        is_piece(pieces[0]),
        written_pieces(pieces.drop_first()).len() > 0 && pieces[0] is Plain ==> written_pieces(
            pieces.drop_first(),
        )[0] == 0x26,
        pieces.len() == 1 ==> written_pieces(pieces.drop_first()).len() == 0,
        pieces.len() > 1 ==> written_pieces(pieces.drop_first()).len() > 0,
{
    let tail = pieces.drop_first();
    assert forall|i: int| 0 <= i < tail.len() implies is_piece(#[trigger] tail[i]) by {
        assert(is_piece(pieces[i + 1]));
    }
    assert forall|i: int| 0 <= i < tail.len() - 1 implies !(#[trigger] tail[i] is Plain && tail[i
        + 1] is Plain) by {
        assert(!(pieces[i + 1] is Plain && pieces[i + 2] is Plain));
    }
    if tail.len() > 0 {
        assert(tail[0] == pieces[1]);
        assert(is_piece(tail[0]));
        assert(!(pieces[0] is Plain && pieces[0int + 1int] is Plain));
    }
}

/// Text is read as it stands: where an element that holds text is open, pieces
/// add exactly what they stand for.
pub proof fn lemma_text_reads(page: list::PageState, pieces: Seq<Piece>, rest: Seq<u8>, cursor: int)
    requires
        are_pieces(pieces),
        list::open_element(page) matches Some(e) && e.is_scalar() && page.text.len() + pieces_text(
            pieces,
        ).len() <= e.text_limit(),
        0 <= page.events,
        page.events + pieces.len() <= 32768,
        0 <= page.total_text_bytes,
        page.total_text_bytes + pieces_text(pieces).len() <= 3_145_728,
        rest.len() > 0,
        rest[0] == 0x3c,
    ensures
        list::read(page, written_pieces(pieces) + rest, cursor) == list::read(
            list::PageState {
                text: page.text + pieces_text(pieces),
                ..tallied(page, pieces_text(pieces), pieces.len() as int)
            },
            rest,
            cursor + written_pieces(pieces).len(),
        ),
    decreases pieces.len(),
{
    let text = pieces_text(pieces);
    let s = written_pieces(pieces) + rest;
    if pieces.len() == 0 {
        assert(s =~= rest);
        assert(page.text + text =~= page.text);
    } else {
        let piece = pieces[0];
        let tail = pieces.drop_first();
        let behind = written_pieces(tail) + rest;
        lemma_pieces_tail(pieces);
        assert(s =~= written_piece(piece) + behind);
        lemma_piece_reads(page, piece, behind, cursor);
        let next = list::PageState {
            text: page.text + piece_text(piece),
            ..tallied(page, piece_text(piece), 1)
        };
        assert(list::open_element(render::counted(page)) == list::open_element(page));
        assert(list::with_text(render::counted(page), piece_text(piece)) == Ok::<
            list::PageState,
            HttpError,
        >(next));
        assert(list::open_element(next) == list::open_element(page));
        lemma_text_reads(next, tail, rest, cursor + written_piece(piece).len());
        assert((page.text + piece_text(piece)) + pieces_text(tail) =~= page.text + text);
    }
}

/// Blanks between elements, and around the root, are passed over.
pub proof fn lemma_blanks_read(page: list::PageState, pieces: Seq<Piece>, rest: Seq<u8>, cursor: int)
    requires
        are_blank(pieces),
        list::open_element(page) matches Some(e) ==> !e.is_scalar(),
        0 <= page.events,
        page.events + pieces.len() <= 32768,
        0 <= page.total_text_bytes,
        page.total_text_bytes + pieces_text(pieces).len() <= 3_145_728,
        rest.len() > 0 ==> rest[0] == 0x3c,
    ensures
        list::read(page, written_pieces(pieces) + rest, cursor) == list::read(
            tallied(page, pieces_text(pieces), pieces.len() as int),
            rest,
            cursor + written_pieces(pieces).len(),
        ),
    decreases pieces.len(),
{
    let text = pieces_text(pieces);
    let s = written_pieces(pieces) + rest;
    if pieces.len() == 0 {
        assert(s =~= rest);
    } else {
        let piece = pieces[0];
        let tail = pieces.drop_first();
        let behind = written_pieces(tail) + rest;
        lemma_pieces_tail(pieces);
        assert(s =~= written_piece(piece) + behind);
        assert(piece is Plain ==> behind.len() == 0 || behind[0] == 0x3c || behind[0] == 0x26) by {
            if tail.len() == 0 {
                assert(behind =~= rest);
            } else {
                assert(behind[0] == written_pieces(tail)[0]);
            }
        }
        lemma_piece_reads(page, piece, behind, cursor);
        let first = piece_text(piece);
        assert forall|i: int| 0 <= i < first.len() implies bytes::is_whitespace(
            #[trigger] first[i],
        ) by {
            assert(text[i] == first[i]);
        }
        let next = tallied(page, first, 1);
        assert(list::open_element(render::counted(page)) == list::open_element(page));
        assert(list::with_text(render::counted(page), first) == Ok::<list::PageState, HttpError>(
            next,
        ));
        assert(list::open_element(next) == list::open_element(page));
        assert forall|i: int| 0 <= i < pieces_text(tail).len() implies (#[trigger] pieces_text(
            tail,
        )[i] == 0x20 || pieces_text(tail)[i] == 0x09 || pieces_text(tail)[i] == 0x0a || pieces_text(
            tail,
        )[i] == 0x0d) by {
            assert(text[i + first.len()] == pieces_text(tail)[i]);
        }
        lemma_blanks_read(next, tail, rest, cursor + written_piece(piece).len());
    }
}

} // verus!
