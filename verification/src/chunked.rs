//! The chunked transfer encoding.

use crate::bytes;
use crate::error;
use crate::error::{HttpError, HttpErrorKind};
use crate::number;
use crate::text;
use vstd::prelude::*;

verus! {

pub const MAX_CHUNKS: usize = 4_096;

/// The size that a size line gives: one to eight hexadecimal digits.
pub open spec fn size_of(line: Seq<u8>) -> Option<nat> {
    if line.len() <= 8 {
        number::parsed(line, 16, u32::MAX as nat)
    } else {
        None
    }
}

pub open spec fn too_many_chunks() -> HttpError {
    HttpError::new(HttpErrorKind::Limit, "S3 response contains too many HTTP chunks")
}

pub open spec fn invalid_size() -> HttpError {
    HttpError::new(HttpErrorKind::Protocol, "S3 response has an invalid HTTP chunk size")
}

pub open spec fn count_overflow() -> HttpError {
    HttpError::new(HttpErrorKind::Limit, "S3 object byte count overflowed")
}

pub open spec fn over_limit() -> HttpError {
    HttpError::new(HttpErrorKind::Limit, "S3 object exceeds the requested byte limit")
}

pub open spec fn offset_overflow() -> HttpError {
    HttpError::new(HttpErrorKind::Limit, "S3 chunk offset overflowed")
}

pub open spec fn malformed_framing() -> HttpError {
    HttpError::new(HttpErrorKind::Protocol, "S3 response has malformed HTTP chunk framing")
}

/// What the chunks in `rest` decode to, behind the `output` of the `chunks`
/// chunks before. `rest` starts at `offset` in its body, which matters only
/// where an index would leave the range of a machine integer.
pub open spec fn decoded(
    rest: Seq<u8>,
    offset: int,
    output: Seq<u8>,
    chunks: int,
    max: int,
) -> Result<Seq<u8>, HttpError>
    decreases rest.len(),
{
    if chunks >= MAX_CHUNKS {
        Err(too_many_chunks())
    } else {
        match bytes::first_index(rest, bytes::crlf()) {
            None => Err(
                HttpError::new(
                    HttpErrorKind::Protocol,
                    "S3 response has a truncated HTTP chunk size",
                ),
            ),
            Some(line) => match size_of(bytes::before(rest, line)) {
                None => Err(invalid_size()),
                Some(size) => {
                    proof {
                        bytes::lemma_first_index_is_first(rest, bytes::crlf());
                    }
                    let start = line + 2;
                    let end = start + size;
                    if size == 0 {
                        if bytes::after(rest, start) == bytes::crlf() {
                            Ok(output)
                        } else {
                            Err(
                                HttpError::new(
                                    HttpErrorKind::Unsupported,
                                    "S3 response trailers are unsupported",
                                ),
                            )
                        }
                    } else if output.len() + size > usize::MAX {
                        Err(count_overflow())
                    } else if output.len() + size > max {
                        Err(over_limit())
                    } else if offset + end > usize::MAX {
                        Err(offset_overflow())
                    } else if end > rest.len() {
                        Err(
                            HttpError::new(
                                HttpErrorKind::Protocol,
                                "S3 response has a truncated HTTP chunk",
                            ),
                        )
                    } else if offset + end + 2 > usize::MAX {
                        Err(offset_overflow())
                    } else if !bytes::occurs_at(rest, bytes::crlf(), end) {
                        Err(malformed_framing())
                    } else {
                        decoded(
                            bytes::after(rest, end + 2),
                            offset + end + 2,
                            output + rest.subrange(start, end),
                            chunks + 1,
                            max,
                        )
                    }
                },
            },
        }
    }
}

/// How far a chunked body has come.
#[derive(Clone, Copy, Debug, Eq, PartialEq, Structural)]
pub enum ChunkedProgress {
    /// The last chunk and what must follow it have arrived.
    Complete,
    /// At least this many bytes are still to come.
    Need(usize),
}

/// The fewest bytes that can still follow where a size line is incomplete: the
/// rest of a last chunk, whose size line has at least one digit.
pub open spec fn shortest_rest(rest: Seq<u8>) -> int {
    if rest.len() == 0 {
        5
    } else if rest.last() == 0x0d {
        3
    } else {
        4
    }
}

/// How far the chunks in `rest` have come, behind `count` decoded bytes in
/// `chunks` chunks before; `offset` is as for [`decoded`].
pub open spec fn progress(
    rest: Seq<u8>,
    offset: int,
    count: int,
    chunks: int,
    max: int,
) -> Result<ChunkedProgress, HttpError>
    decreases rest.len(),
{
    if chunks >= MAX_CHUNKS {
        Err(too_many_chunks())
    } else {
        match bytes::first_index(rest, bytes::crlf()) {
            None => if rest.len() >= 10 {
                Err(invalid_size())
            } else {
                Ok(ChunkedProgress::Need(shortest_rest(rest) as usize))
            },
            Some(line) => match size_of(bytes::before(rest, line)) {
                None => Err(invalid_size()),
                Some(size) => {
                    proof {
                        bytes::lemma_first_index_is_first(rest, bytes::crlf());
                    }
                    let start = line + 2;
                    let end = start + size;
                    if size == 0 {
                        if rest.len() - start < 2 {
                            Ok(ChunkedProgress::Need((2 - (rest.len() - start)) as usize))
                        } else {
                            Ok(ChunkedProgress::Complete)
                        }
                    } else if count + size > usize::MAX {
                        Err(count_overflow())
                    } else if count + size > max {
                        Err(over_limit())
                    } else if offset + end + 2 > usize::MAX {
                        Err(offset_overflow())
                    } else if rest.len() < end + 2 {
                        Ok(ChunkedProgress::Need((end + 2 - rest.len()) as usize))
                    } else if !bytes::occurs_at(rest, bytes::crlf(), end) {
                        Err(malformed_framing())
                    } else {
                        progress(
                            bytes::after(rest, end + 2),
                            offset + end + 2,
                            count + size,
                            chunks + 1,
                            max,
                        )
                    }
                },
            },
        }
    }
}

/// The index of the first line end at or after `start`, which there is none of
/// behind the end.
pub fn find_crlf(raw: &[u8], start: usize) -> (result: Option<usize>)
    ensures
        start > raw@.len() ==> result is None,
        start <= raw@.len() ==> match result {
            Some(i) => start <= i && i + 2 <= raw.len() && bytes::first_index(
                bytes::after(raw@, start as int),
                bytes::crlf(),
            ) == Some(i - start),
            None => bytes::first_index(bytes::after(raw@, start as int), bytes::crlf()) is None,
        },
{
    if start > raw.len() {
        return None;
    }
    match bytes::find(&raw[start..raw.len()], bytes::crlf_bytes()) {
        Some(i) => {
            assert(start + i + 2 <= raw.len());
            Some(start + i)
        },
        None => None,
    }
}

/// Reads a size line.
fn chunk_size(line: &[u8]) -> (result: Option<usize>)
    ensures
        match size_of(line@) {
            Some(size) => result == Some(size as usize) && size <= u32::MAX,
            None => result is None,
        },
{
    if line.len() > 8 {
        return None;
    }
    match number::parse(line, 16, u32::MAX as u64) {
        Some(size) => Some(size as usize),
        None => None,
    }
}

/// How far a chunked body of at most `max_bytes` decoded bytes has come.
pub fn chunked_progress(body: &[u8], max_bytes: usize) -> (result: Result<
    ChunkedProgress,
    HttpError,
>)
    ensures
        result == progress(body@, 0, 0, 0, max_bytes as int),
{
    let mut cursor: usize = 0;
    let mut decoded_bytes: usize = 0;
    let mut chunks: usize = 0;
    assert(bytes::after(body@, 0) =~= body@);
    loop
        invariant
            cursor <= body@.len(),
            chunks <= MAX_CHUNKS,
            progress(body@, 0, 0, 0, max_bytes as int) == progress(
                bytes::after(body@, cursor as int),
                cursor as int,
                decoded_bytes as int,
                chunks as int,
                max_bytes as int,
            ),
        decreases body@.len() - cursor,
    {
        let ghost rest = bytes::after(body@, cursor as int);
        chunks += 1;
        if chunks > MAX_CHUNKS {
            return Err(
                HttpError::new(HttpErrorKind::Limit, "S3 response contains too many HTTP chunks"),
            );
        }
        let line_end: usize = match find_crlf(body, cursor) {
            Some(line_end) => line_end,
            None => {
                let available: usize = body.len() - cursor;
                if available >= 10 {
                    return Err(
                        HttpError::new(
                            HttpErrorKind::Protocol,
                            "S3 response has an invalid HTTP chunk size",
                        ),
                    );
                }
                let needed: usize = if available == 0 {
                    5
                } else if body[body.len() - 1] == 0x0d {
                    3
                } else {
                    4
                };
                return Ok(ChunkedProgress::Need(needed));
            },
        };
        let line = &body[cursor..line_end];
        assert(line@ =~= bytes::before(rest, line_end - cursor));
        let size: usize = match chunk_size(line) {
            Some(size) => size,
            None => {
                return Err(
                    HttpError::new(
                        HttpErrorKind::Protocol,
                        "S3 response has an invalid HTTP chunk size",
                    ),
                );
            },
        };
        let start: usize = line_end + 2;
        if size == 0 {
            let available: usize = body.len() - start;
            return if available < 2 {
                Ok(ChunkedProgress::Need(2 - available))
            } else {
                Ok(ChunkedProgress::Complete)
            };
        }
        decoded_bytes = match decoded_bytes.checked_add(size) {
            Some(count) => count,
            None => {
                return Err(
                    HttpError::new(HttpErrorKind::Limit, "S3 object byte count overflowed"),
                );
            },
        };
        if decoded_bytes > max_bytes {
            return Err(
                HttpError::new(HttpErrorKind::Limit, "S3 object exceeds the requested byte limit"),
            );
        }
        let framed_end: usize = match start.checked_add(size) {
            Some(data_end) => match data_end.checked_add(2) {
                Some(framed_end) => framed_end,
                None => {
                    return Err(HttpError::new(HttpErrorKind::Limit, "S3 chunk offset overflowed"));
                },
            },
            None => {
                return Err(HttpError::new(HttpErrorKind::Limit, "S3 chunk offset overflowed"));
            },
        };
        if body.len() < framed_end {
            return Ok(ChunkedProgress::Need(framed_end - body.len()));
        }
        assert(body@.subrange(framed_end - 2, framed_end as int) =~= rest.subrange(
            framed_end - 2 - cursor,
            framed_end - cursor,
        ));
        if !bytes::occurs(body, bytes::crlf_bytes(), framed_end - 2) {
            return Err(
                HttpError::new(
                    HttpErrorKind::Protocol,
                    "S3 response has malformed HTTP chunk framing",
                ),
            );
        }
        assert(bytes::after(rest, framed_end - cursor) =~= bytes::after(body@, framed_end as int));
        cursor = framed_end;
    }
}

/// Decodes a chunked body of at most `max_bytes` decoded bytes.
pub fn decode_chunked(body: &[u8], max_bytes: usize) -> (result: Result<Vec<u8>, HttpError>)
    ensures
        error::agrees(result, decoded(body@, 0, Seq::empty(), 0, max_bytes as int)),
{
    let mut cursor: usize = 0;
    let mut output: Vec<u8> = Vec::new();
    let mut chunks: usize = 0;
    assert(bytes::after(body@, 0) =~= body@);
    loop
        invariant
            cursor <= body@.len(),
            chunks <= MAX_CHUNKS,
            decoded(body@, 0, Seq::empty(), 0, max_bytes as int) == decoded(
                bytes::after(body@, cursor as int),
                cursor as int,
                output@,
                chunks as int,
                max_bytes as int,
            ),
        decreases body@.len() - cursor,
    {
        let ghost rest = bytes::after(body@, cursor as int);
        chunks += 1;
        if chunks > MAX_CHUNKS {
            return Err(
                HttpError::new(HttpErrorKind::Limit, "S3 response contains too many HTTP chunks"),
            );
        }
        let line_end: usize = match find_crlf(body, cursor) {
            Some(line_end) => line_end,
            None => {
                return Err(
                    HttpError::new(
                        HttpErrorKind::Protocol,
                        "S3 response has a truncated HTTP chunk size",
                    ),
                );
            },
        };
        let line = &body[cursor..line_end];
        assert(line@ =~= bytes::before(rest, line_end - cursor));
        let size: usize = match chunk_size(line) {
            Some(size) => size,
            None => {
                return Err(
                    HttpError::new(
                        HttpErrorKind::Protocol,
                        "S3 response has an invalid HTTP chunk size",
                    ),
                );
            },
        };
        let start: usize = line_end + 2;
        if size == 0 {
            let tail = &body[start..body.len()];
            assert(tail@ =~= bytes::after(rest, start - cursor));
            if !bytes::equal(tail, bytes::crlf_bytes()) {
                return Err(
                    HttpError::new(
                        HttpErrorKind::Unsupported,
                        "S3 response trailers are unsupported",
                    ),
                );
            }
            return Ok(output);
        }
        let next_len: usize = match output.len().checked_add(size) {
            Some(next_len) => next_len,
            None => {
                return Err(
                    HttpError::new(HttpErrorKind::Limit, "S3 object byte count overflowed"),
                );
            },
        };
        if next_len > max_bytes {
            return Err(
                HttpError::new(HttpErrorKind::Limit, "S3 object exceeds the requested byte limit"),
            );
        }
        let data_end: usize = match start.checked_add(size) {
            Some(data_end) => data_end,
            None => {
                return Err(HttpError::new(HttpErrorKind::Limit, "S3 chunk offset overflowed"));
            },
        };
        if data_end > body.len() {
            return Err(
                HttpError::new(HttpErrorKind::Protocol, "S3 response has a truncated HTTP chunk"),
            );
        }
        let data = &body[start..data_end];
        assert(data@ =~= rest.subrange(start - cursor, data_end - cursor));
        let framed_end: usize = match data_end.checked_add(2) {
            Some(framed_end) => framed_end,
            None => {
                return Err(HttpError::new(HttpErrorKind::Limit, "S3 chunk offset overflowed"));
            },
        };
        assert(framed_end <= body.len() ==> body@.subrange(data_end as int, framed_end as int)
            =~= rest.subrange(data_end - cursor, framed_end - cursor));
        if !bytes::occurs(body, bytes::crlf_bytes(), data_end) {
            return Err(
                HttpError::new(
                    HttpErrorKind::Protocol,
                    "S3 response has malformed HTTP chunk framing",
                ),
            );
        }
        text::append(&mut output, data);
        assert(bytes::after(rest, framed_end - cursor) =~= bytes::after(body@, framed_end as int));
        cursor = framed_end;
    }
}

/// A body that is not complete always needs at least one byte.
pub proof fn lemma_need_is_positive(rest: Seq<u8>, offset: int, count: int, chunks: int, max: int)
    requires
        0 <= offset,
        offset + rest.len() <= usize::MAX,
    ensures
        progress(rest, offset, count, chunks, max) matches Ok(ChunkedProgress::Need(n)) ==> n > 0,
    decreases rest.len(),
{
    bytes::lemma_first_index_is_first(rest, bytes::crlf());
    if let Some(line) = bytes::first_index(rest, bytes::crlf()) {
        if let Some(size) = size_of(bytes::before(rest, line)) {
            let end = line + 2 + size;
            if end + 2 <= rest.len() {
                lemma_need_is_positive(
                    bytes::after(rest, end + 2),
                    offset + end + 2,
                    count + size,
                    chunks + 1,
                    max,
                );
            }
        }
    }
}

/// A chunk: its size line without the line end, and its data.
pub struct Chunk {
    pub line: Seq<u8>,
    pub data: Seq<u8>,
}

/// Whether the size line of a chunk gives the length of its data, which is
/// not empty.
pub open spec fn is_chunk(chunk: Chunk) -> bool {
    chunk.data.len() > 0 && size_of(chunk.line) == Some(chunk.data.len())
}

/// Whether all chunks are well formed.
pub open spec fn are_chunks(chunks: Seq<Chunk>) -> bool {
    forall|i: int| 0 <= i < chunks.len() ==> is_chunk(#[trigger] chunks[i])
}

/// A chunk as it is sent.
pub open spec fn sent_chunk(chunk: Chunk) -> Seq<u8> {
    chunk.line + bytes::crlf() + chunk.data + bytes::crlf()
}

/// The body that sends the chunks, ended by the size line `last` and a blank
/// line.
pub open spec fn sent(chunks: Seq<Chunk>, last: Seq<u8>) -> Seq<u8>
    decreases chunks.len(),
{
    if chunks.len() == 0 {
        last + bytes::crlf() + bytes::crlf()
    } else {
        sent_chunk(chunks[0]) + sent(chunks.drop_first(), last)
    }
}

/// The data of all chunks.
pub open spec fn payload(chunks: Seq<Chunk>) -> Seq<u8>
    decreases chunks.len(),
{
    if chunks.len() == 0 {
        Seq::empty()
    } else {
        chunks[0].data + payload(chunks.drop_first())
    }
}

/// The line end behind a size line is the first one.
proof fn lemma_line_ends_first(line: Seq<u8>, rest: Seq<u8>)
    requires
        size_of(line) is Some,
    ensures
        bytes::first_index(line + bytes::crlf() + rest, bytes::crlf()) == Some(line.len() as int),
        bytes::before(line + bytes::crlf() + rest, line.len() as int) == line,
{
    let s = line + bytes::crlf() + rest;
    let n = line.len() as int;
    assert(s.subrange(n, n + 2) =~= bytes::crlf());
    assert forall|j: int| 0 <= j < n implies !bytes::occurs_at(s, bytes::crlf(), j) by {
        assert(number::is_radix_digit(line[j], 16));
        if bytes::occurs_at(s, bytes::crlf(), j) {
            assert(s.subrange(j, j + 2)[0] == bytes::crlf()[0]);
        }
    }
    bytes::lemma_first_index(s, bytes::crlf(), n);
    assert(bytes::before(s, n) =~= line);
}

/// A chunk decodes to its data, in front of what follows.
proof fn lemma_chunk_decodes(
    chunk: Chunk,
    tail: Seq<u8>,
    offset: int,
    output: Seq<u8>,
    count: int,
    max: int,
)
    requires
        is_chunk(chunk),
        count < MAX_CHUNKS,
        output.len() + chunk.data.len() <= max <= usize::MAX,
        offset + sent_chunk(chunk).len() <= usize::MAX,
    ensures
        decoded(sent_chunk(chunk) + tail, offset, output, count, max) == decoded(
            tail,
            offset + sent_chunk(chunk).len(),
            output + chunk.data,
            count + 1,
            max,
        ),
{
    let body = sent_chunk(chunk) + tail;
    let n = chunk.line.len() as int;
    let end = n + 2 + chunk.data.len();
    assert(body =~= chunk.line + bytes::crlf() + (chunk.data + bytes::crlf() + tail));
    lemma_line_ends_first(chunk.line, chunk.data + bytes::crlf() + tail);
    assert(body.subrange(n + 2, end) =~= chunk.data);
    assert(body.subrange(end, end + 2) =~= bytes::crlf());
    assert(bytes::after(body, end + 2) =~= tail);
}

proof fn lemma_sent_decodes(
    chunks: Seq<Chunk>,
    last: Seq<u8>,
    offset: int,
    output: Seq<u8>,
    count: int,
    max: int,
)
    requires
        are_chunks(chunks),
        size_of(last) == Some(0nat),
        0 <= count,
        count + chunks.len() < MAX_CHUNKS,
        output.len() + payload(chunks).len() <= max <= usize::MAX,
        0 <= offset,
        offset + sent(chunks, last).len() <= usize::MAX,
    ensures
        decoded(sent(chunks, last), offset, output, count, max) == Ok::<Seq<u8>, HttpError>(
            output + payload(chunks),
        ),
    decreases chunks.len(),
{
    let body = sent(chunks, last);
    if chunks.len() == 0 {
        lemma_line_ends_first(last, bytes::crlf());
        assert(bytes::after(body, last.len() + 2int) =~= bytes::crlf());
        assert(output + payload(chunks) =~= output);
    } else {
        let chunk = chunks[0];
        let tail = sent(chunks.drop_first(), last);
        lemma_chunk_decodes(chunk, tail, offset, output, count, max);
        assert(are_chunks(chunks.drop_first())) by {
            assert forall|i: int| 0 <= i < chunks.drop_first().len() implies is_chunk(
                #[trigger] chunks.drop_first()[i],
            ) by {
                assert(is_chunk(chunks[i + 1]));
            }
        }
        lemma_sent_decodes(
            chunks.drop_first(),
            last,
            offset + sent_chunk(chunk).len(),
            output + chunk.data,
            count + 1,
            max,
        );
        assert((output + chunk.data) + payload(chunks.drop_first()) =~= output + payload(chunks));
    }
}

/// What was sent in chunks is read back: every body made of fewer than
/// [`MAX_CHUNKS`] chunks, with at most `max` bytes of data, decodes to its data.
pub proof fn law_sent_chunks_read_back(chunks: Seq<Chunk>, last: Seq<u8>, max: int)
    requires
        are_chunks(chunks),
        size_of(last) == Some(0nat),
        chunks.len() < MAX_CHUNKS,
        payload(chunks).len() <= max <= usize::MAX,
        sent(chunks, last).len() <= usize::MAX,
    ensures
        decoded(sent(chunks, last), 0, Seq::empty(), 0, max) == Ok::<Seq<u8>, HttpError>(
            payload(chunks),
        ),
{
    lemma_sent_decodes(chunks, last, 0, Seq::empty(), 0, max);
    assert(Seq::<u8>::empty() + payload(chunks) =~= payload(chunks));
}

/// Bytes are what they are cut into.
proof fn lemma_cut_in_five(rest: Seq<u8>, n: int, end: int)
    requires
        0 <= n,
        n + 2 <= end,
        end + 2 <= rest.len(),
    ensures
        rest == bytes::before(rest, n) + rest.subrange(n, n + 2) + rest.subrange(n + 2, end)
            + rest.subrange(end, end + 2) + bytes::after(rest, end + 2),
{
    assert(rest =~= bytes::before(rest, n) + rest.subrange(n, n + 2) + rest.subrange(n + 2, end)
        + rest.subrange(end, end + 2) + bytes::after(rest, end + 2));
}

#[verifier::spinoff_prover]
#[verifier::rlimit(60)]
proof fn lemma_decoded_was_sent(
    rest: Seq<u8>,
    offset: int,
    output: Seq<u8>,
    count: int,
    max: int,
) -> (r: (Seq<Chunk>, Seq<u8>))
    requires
        decoded(rest, offset, output, count, max) is Ok,
        0 <= count,
    ensures
        are_chunks(r.0),
        size_of(r.1) == Some(0nat),
        count + r.0.len() < MAX_CHUNKS,
        rest == sent(r.0, r.1),
        decoded(rest, offset, output, count, max)->Ok_0 == output + payload(r.0),
        r.0.len() > 0 ==> output.len() + payload(r.0).len() <= max,
    decreases rest.len(),
{
    bytes::lemma_first_index_is_first(rest, bytes::crlf());
    let n = bytes::first_index(rest, bytes::crlf())->0;
    let line = bytes::before(rest, n);
    let size = size_of(line)->0;
    assert(rest.subrange(n, n + 2) == bytes::crlf());
    if size == 0 {
        let chunks = Seq::<Chunk>::empty();
        assert(rest =~= line + rest.subrange(n, n + 2) + bytes::after(rest, n + 2));
        assert(output + payload(chunks) =~= output);
        (chunks, line)
    } else {
        let end = n + 2 + size;
        let chunk = Chunk { line, data: rest.subrange(n + 2, end) };
        let tail = bytes::after(rest, end + 2);
        let (chunks, last) = lemma_decoded_was_sent(
            tail,
            offset + end + 2,
            output + chunk.data,
            count + 1,
            max,
        );
        let all = seq![chunk] + chunks;
        assert(all.drop_first() =~= chunks);
        assert(are_chunks(all)) by {
            assert forall|i: int| 0 <= i < all.len() implies is_chunk(#[trigger] all[i]) by {
                if i > 0 {
                    assert(is_chunk(chunks[i - 1]));
                }
            }
        }
        assert(rest.subrange(end, end + 2) == bytes::crlf());
        lemma_cut_in_five(rest, n, end);
        assert(rest == sent_chunk(chunk) + tail);
        assert((output + chunk.data) + payload(chunks) =~= output + payload(all));
        (all, last)
    }
}

/// Nothing else decodes: a body that decodes is made of fewer than
/// [`MAX_CHUNKS`] well-formed chunks, a last size line and a blank line, and it
/// decodes to the data of the chunks, which is at most `max` bytes long.
pub proof fn law_only_sent_chunks_decode(body: Seq<u8>, max: int)
    requires
        decoded(body, 0, Seq::empty(), 0, max) is Ok,
        0 <= max,
    ensures
        exists|chunks: Seq<Chunk>, last: Seq<u8>|
            {
                &&& are_chunks(chunks)
                &&& size_of(last) == Some(0nat)
                &&& chunks.len() < MAX_CHUNKS
                &&& body == #[trigger] sent(chunks, last)
                &&& decoded(body, 0, Seq::empty(), 0, max) == Ok::<Seq<u8>, HttpError>(
                    payload(chunks),
                )
                &&& payload(chunks).len() <= max
            },
{
    let (chunks, last) = lemma_decoded_was_sent(body, 0, Seq::empty(), 0, max);
    assert(Seq::<u8>::empty() + payload(chunks) =~= payload(chunks));
    assert(body == sent(chunks, last));
}

/// Where the prefix of a body holds its first line end, it is the first line
/// end of the prefix too, and where it does not, the prefix holds none.
proof fn lemma_prefix_line_end(rest: Seq<u8>, n: int, k: int)
    requires
        bytes::first_index(rest, bytes::crlf()) == Some(n),
        0 <= k <= rest.len(),
    ensures
        n + 2 <= k ==> bytes::first_index(bytes::before(rest, k), bytes::crlf()) == Some(n)
            && bytes::before(bytes::before(rest, k), n) == bytes::before(rest, n),
        n + 2 > k ==> bytes::first_index(bytes::before(rest, k), bytes::crlf()) is None,
{
    let prefix = bytes::before(rest, k);
    bytes::lemma_first_index_is_first(rest, bytes::crlf());
    assert forall|j: int| bytes::occurs_at(prefix, bytes::crlf(), j) implies bytes::occurs_at(
        rest,
        bytes::crlf(),
        j,
    ) by {
        assert(prefix.subrange(j, j + 2) =~= rest.subrange(j, j + 2));
    }
    if n + 2 <= k {
        assert(prefix.subrange(n, n + 2) =~= rest.subrange(n, n + 2));
        bytes::lemma_first_index(prefix, bytes::crlf(), n);
        assert(bytes::before(prefix, n) =~= bytes::before(rest, n));
    } else {
        bytes::lemma_first_index_none(prefix, bytes::crlf());
    }
}

proof fn lemma_prefix_is_incomplete(
    rest: Seq<u8>,
    offset: int,
    output: Seq<u8>,
    chunks: int,
    max: int,
    k: int,
)
    requires
        decoded(rest, offset, output, chunks, max) is Ok,
        0 <= k < rest.len(),
        0 <= offset,
        offset + rest.len() <= usize::MAX,
    ensures
        decoded(bytes::before(rest, k), offset, output, chunks, max) is Err,
        progress(bytes::before(rest, k), offset, output.len() as int, chunks, max) matches Ok(
            ChunkedProgress::Need(n),
        ) && 0 < n <= rest.len() - k,
    decreases rest.len(),
{
    let prefix = bytes::before(rest, k);
    bytes::lemma_first_index_is_first(rest, bytes::crlf());
    let line = bytes::first_index(rest, bytes::crlf())->0;
    let size = size_of(bytes::before(rest, line))->0;
    let start = line + 2;
    let end = start + size;
    lemma_prefix_line_end(rest, line, k);
    if size == 0 {
        assert(bytes::after(rest, start).len() == 2);
    }
    if k >= start && size > 0 {
        if end + 2 <= k {
            let tail = bytes::after(rest, end + 2);
            assert(prefix.subrange(end, end + 2) =~= rest.subrange(end, end + 2));
            assert(prefix.subrange(start, end) =~= rest.subrange(start, end));
            assert(bytes::after(prefix, end + 2) =~= bytes::before(tail, k - end - 2));
            lemma_prefix_is_incomplete(
                tail,
                offset + end + 2,
                output + rest.subrange(start, end),
                chunks + 1,
                max,
                k - end - 2,
            );
        }
    }
}

/// A truncated body is never taken for a complete one: no proper prefix of a
/// body that decodes does so too, and a body that has come only so far asks
/// for more, but never for more than what remains of it.
pub proof fn law_truncated_chunks_are_refused(body: Seq<u8>, max: int, k: int)
    requires
        decoded(body, 0, Seq::empty(), 0, max) is Ok,
        0 <= k < body.len() <= usize::MAX,
    ensures
        decoded(bytes::before(body, k), 0, Seq::empty(), 0, max) is Err,
        progress(bytes::before(body, k), 0, 0, 0, max) matches Ok(ChunkedProgress::Need(n)) && 0 < n
            <= body.len() - k,
{
    lemma_prefix_is_incomplete(body, 0, Seq::empty(), 0, max, k);
}

proof fn lemma_progress_and_decoding(
    rest: Seq<u8>,
    offset: int,
    output: Seq<u8>,
    chunks: int,
    max: int,
)
    ensures
        decoded(rest, offset, output, chunks, max) is Ok ==> progress(
            rest,
            offset,
            output.len() as int,
            chunks,
            max,
        ) == Ok::<ChunkedProgress, HttpError>(ChunkedProgress::Complete),
        progress(rest, offset, output.len() as int, chunks, max) == Ok::<
            ChunkedProgress,
            HttpError,
        >(ChunkedProgress::Complete) ==> (match decoded(rest, offset, output, chunks, max) {
            Ok(_) => true,
            Err(error) => error.kind == HttpErrorKind::Unsupported,
        }),
    decreases rest.len(),
{
    bytes::lemma_first_index_is_first(rest, bytes::crlf());
    if let Some(line) = bytes::first_index(rest, bytes::crlf()) {
        if let Some(size) = size_of(bytes::before(rest, line)) {
            let start = line + 2;
            let end = start + size;
            if size > 0 && end + 2 <= rest.len() {
                lemma_progress_and_decoding(
                    bytes::after(rest, end + 2),
                    offset + end + 2,
                    output + rest.subrange(start, end),
                    chunks + 1,
                    max,
                );
            }
        }
    }
}

/// Reading and decoding agree on where a body ends: one that decodes is
/// complete, and one that is complete decodes unless something other than a
/// blank line follows its last chunk.
pub proof fn law_complete_bodies_decode(body: Seq<u8>, max: int)
    ensures
        decoded(body, 0, Seq::empty(), 0, max) is Ok ==> progress(body, 0, 0, 0, max) == Ok::<
            ChunkedProgress,
            HttpError,
        >(ChunkedProgress::Complete),
        progress(body, 0, 0, 0, max) == Ok::<ChunkedProgress, HttpError>(ChunkedProgress::Complete)
            ==> (match decoded(body, 0, Seq::empty(), 0, max) {
            Ok(_) => true,
            Err(error) => error.kind == HttpErrorKind::Unsupported,
        }),
{
    lemma_progress_and_decoding(body, 0, Seq::empty(), 0, max);
}

/// How many numbers a number of hexadecimal digits write.
spec fn places(count: nat) -> nat
    decreases count,
{
    if count == 0 {
        1
    } else {
        16 * places((count - 1) as nat)
    }
}

proof fn lemma_places(s: Seq<u8>, n: nat)
    requires
        number::writes(s, 16, n),
    ensures
        n < places(s.len()),
    decreases s.len(),
{
    if s.len() > 1 {
        lemma_places(s.drop_last(), n / 16);
    } else {
        reveal_with_fuel(places, 2);
    }
}

/// A size line is one to eight hexadecimal digits of either case, zeros in front
/// included, and gives the number that they write.
pub proof fn law_size_lines_are_hexadecimal(line: Seq<u8>, n: nat)
    ensures
        size_of(line) == Some(n) <==> line.len() <= 8 && number::writes(line, 16, n),
{
    number::law_written_numbers_are_read(line, 16, n, u32::MAX as nat);
    if line.len() <= 8 && number::writes(line, 16, n) {
        lemma_places(line, n);
        reveal_with_fuel(places, 9);
    }
}

/// A greater limit does not change what is decoded.
pub proof fn lemma_greater_limits(
    rest: Seq<u8>,
    offset: int,
    output: Seq<u8>,
    chunks: int,
    max: int,
    greater: int,
)
    requires
        max <= greater,
        decoded(rest, offset, output, chunks, max) is Ok,
    ensures
        decoded(rest, offset, output, chunks, greater) == decoded(
            rest,
            offset,
            output,
            chunks,
            max,
        ),
    decreases rest.len(),
{
    bytes::lemma_first_index_is_first(rest, bytes::crlf());
    let line = bytes::first_index(rest, bytes::crlf())->0;
    let size = size_of(bytes::before(rest, line))->0;
    let end = line + 2 + size;
    if size > 0 {
        lemma_greater_limits(
            bytes::after(rest, end + 2),
            offset + end + 2,
            output + rest.subrange(line + 2, end),
            chunks + 1,
            max,
            greater,
        );
    }
}

/// Whether chunks are well formed: each holds data, and its size line is one to
/// eight hexadecimal digits that write how much.
pub open spec fn are_sized(chunks: Seq<Chunk>) -> bool {
    forall|i: int|
        0 <= i < chunks.len() ==> {
            let chunk = #[trigger] chunks[i];
            &&& chunk.data.len() > 0
            &&& chunk.line.len() <= 8
            &&& number::writes(chunk.line, 16, chunk.data.len())
        }
}

/// What was sent in chunks, ended by one to eight zeros and a blank line, decodes
/// exactly to the data of the chunks, where that is within the limit, and not at
/// all where it is not.
pub proof fn law_sized_chunks_decode(chunks: Seq<Chunk>, last: Seq<u8>, max: int)
    requires
        are_sized(chunks),
        last.len() <= 8,
        number::writes(last, 16, 0),
        chunks.len() < 4096,
        0 <= max <= usize::MAX,
        sent(chunks, last).len() <= usize::MAX,
    ensures
        payload(chunks).len() <= max ==> decoded(sent(chunks, last), 0, Seq::empty(), 0, max) == Ok::<
            Seq<u8>,
            HttpError,
        >(payload(chunks)),
        payload(chunks).len() > max ==> decoded(sent(chunks, last), 0, Seq::empty(), 0, max) is Err,
{
    let body = sent(chunks, last);
    law_size_lines_are_hexadecimal(last, 0);
    assert forall|i: int| 0 <= i < chunks.len() implies is_chunk(#[trigger] chunks[i]) by {
        law_size_lines_are_hexadecimal(chunks[i].line, chunks[i].data.len());
    }
    lemma_payload_is_sent(chunks, last);
    if payload(chunks).len() <= max {
        law_sent_chunks_read_back(chunks, last, max);
    } else {
        law_sent_chunks_read_back(chunks, last, usize::MAX as int);
        if decoded(body, 0, Seq::empty(), 0, max) is Ok {
            lemma_greater_limits(body, 0, Seq::empty(), 0, max, usize::MAX as int);
            law_only_sent_chunks_decode(body, max);
        }
    }
}

proof fn lemma_payload_is_sent(chunks: Seq<Chunk>, last: Seq<u8>)
    ensures
        payload(chunks).len() <= sent(chunks, last).len(),
    decreases chunks.len(),
{
    if chunks.len() > 0 {
        lemma_payload_is_sent(chunks.drop_first(), last);
    }
}

/// Chunks one after the other, with no end.
pub open spec fn run(chunks: Seq<Chunk>) -> Seq<u8>
    decreases chunks.len(),
{
    if chunks.len() == 0 {
        Seq::empty()
    } else {
        sent_chunk(chunks[0]) + run(chunks.drop_first())
    }
}

/// A chunk is passed over when more is read.
proof fn lemma_chunk_is_passed(
    chunk: Chunk,
    tail: Seq<u8>,
    offset: int,
    count: int,
    chunks: int,
    max: int,
)
    requires
        is_chunk(chunk),
        chunks < MAX_CHUNKS,
        count + chunk.data.len() <= max <= usize::MAX,
        offset + sent_chunk(chunk).len() <= usize::MAX,
    ensures
        progress(sent_chunk(chunk) + tail, offset, count, chunks, max) == progress(
            tail,
            offset + sent_chunk(chunk).len(),
            count + chunk.data.len(),
            chunks + 1,
            max,
        ),
{
    let body = sent_chunk(chunk) + tail;
    let n = chunk.line.len() as int;
    let end = n + 2 + chunk.data.len();
    assert(body =~= chunk.line + bytes::crlf() + (chunk.data + bytes::crlf() + tail));
    lemma_line_ends_first(chunk.line, chunk.data + bytes::crlf() + tail);
    assert(body.subrange(n + 2, end) =~= chunk.data);
    assert(body.subrange(end, end + 2) =~= bytes::crlf());
    assert(bytes::after(body, end + 2) =~= tail);
}

proof fn lemma_run_is_passed(
    chunks: Seq<Chunk>,
    tail: Seq<u8>,
    offset: int,
    output: Seq<u8>,
    count: int,
    max: int,
)
    requires
        are_chunks(chunks),
        0 <= count,
        count + chunks.len() <= MAX_CHUNKS,
        output.len() + payload(chunks).len() <= max <= usize::MAX,
        0 <= offset,
        offset + run(chunks).len() <= usize::MAX,
    ensures
        progress(run(chunks) + tail, offset, output.len() as int, count, max) == progress(
            tail,
            offset + run(chunks).len(),
            (output + payload(chunks)).len() as int,
            count + chunks.len(),
            max,
        ),
        decoded(run(chunks) + tail, offset, output, count, max) == decoded(
            tail,
            offset + run(chunks).len(),
            output + payload(chunks),
            count + chunks.len(),
            max,
        ),
    decreases chunks.len(),
{
    if chunks.len() == 0 {
        assert(run(chunks) + tail =~= tail);
        assert(output + payload(chunks) =~= output);
    } else {
        let chunk = chunks[0];
        let others = chunks.drop_first();
        let rest = run(others) + tail;
        assert(run(chunks) + tail =~= sent_chunk(chunk) + rest);
        assert(is_chunk(chunk));
        assert forall|i: int| 0 <= i < others.len() implies is_chunk(#[trigger] others[i]) by {
            assert(is_chunk(chunks[i + 1]));
        }
        assert((output + chunk.data) + payload(others) =~= output + payload(chunks));
        lemma_chunk_is_passed(chunk, rest, offset, output.len() as int, count, max);
        lemma_chunk_decodes(chunk, rest, offset, output, count, max);
        lemma_run_is_passed(
            others,
            tail,
            offset + sent_chunk(chunk).len(),
            output + chunk.data,
            count + 1,
            max,
        );
    }
}

/// Behind any chunks, however much has come of what follows them, a body is
/// refused at once, when it is read and when it is decoded: as over its limit
/// behind 4096 chunks, or where the next size goes beyond the limit, and as
/// malformed where the next line is no size, or where its data is not followed by
/// a line end.
pub proof fn law_faulty_chunks_are_refused_at_once(
    chunks: Seq<Chunk>,
    line: Seq<u8>,
    size: nat,
    rest: Seq<u8>,
    max: int,
)
    requires
        are_sized(chunks),
        chunks.len() <= 4096,
        payload(chunks).len() <= max <= usize::MAX,
        run(chunks).len() + line.len() + rest.len() + 4 <= usize::MAX,
        bytes::is_free_of(line, 0x0d),
    ensures
        ({
            let body = run(chunks) + (line + seq![0x0du8, 0x0au8] + rest);
            let read = progress(body, 0, 0, 0, max);
            let object = decoded(body, 0, Seq::empty(), 0, max);
            let is_size = line.len() <= 8 && number::writes(line, 16, size);
            &&& chunks.len() == 4096 || (is_size && size > 0 && payload(chunks).len() + size > max)
                ==> {
                &&& read matches Err(error) && error.kind == HttpErrorKind::Limit
                &&& object matches Err(error) && error.kind == HttpErrorKind::Limit
            }
            &&& chunks.len() < 4096 && size_of(line) is None ==> {
                &&& read matches Err(error) && error.kind == HttpErrorKind::Protocol
                &&& object matches Err(error) && error.kind == HttpErrorKind::Protocol
            }
            &&& chunks.len() < 4096 && is_size && size > 0 && payload(chunks).len() + size <= max
                && rest.len() >= size + 2 && !(rest[size as int] == 0x0d && rest[size + 1int] == 0x0a)
                ==> {
                &&& read matches Err(error) && error.kind == HttpErrorKind::Protocol
                &&& object matches Err(error) && error.kind == HttpErrorKind::Protocol
            }
        }),
{
    let crlf = bytes::crlf();
    let tail = line + crlf + rest;
    let n = line.len() as int;
    assert forall|i: int| 0 <= i < chunks.len() implies is_chunk(#[trigger] chunks[i]) by {
        law_size_lines_are_hexadecimal(chunks[i].line, chunks[i].data.len());
    }
    lemma_run_is_passed(chunks, tail, 0, Seq::empty(), 0, max);
    assert(Seq::<u8>::empty() + payload(chunks) =~= payload(chunks));
    law_size_lines_are_hexadecimal(line, size);
    bytes::lemma_split_first(line, crlf, rest);
    assert(tail.subrange(n, n + 2) =~= crlf);
    assert forall|j: int| 0 <= j < n implies !bytes::occurs_at(tail, crlf, j) by {
        if bytes::occurs_at(tail, crlf, j) {
            assert(tail.subrange(j, j + 2)[0] == 0x0d);
            assert(tail[j] == line[j]);
        }
    }
    bytes::lemma_first_index(tail, crlf, n);
    assert(bytes::before(tail, n) =~= line);
    let end = n + 2 + size;
    if rest.len() >= size + 2 && bytes::occurs_at(tail, crlf, end) {
        assert(tail.subrange(end, end + 2)[0] == 0x0d);
        assert(tail.subrange(end, end + 2)[1] == 0x0a);
        assert(tail[end] == rest[size as int]);
        assert(tail[end + 1] == rest[size + 1int]);
    }
}

/// What is missing is asked for, and no more: behind any chunks, the rest of a
/// chunk whose size has come, with its line end; behind the size of the last
/// chunk, the rest of the blank line; and before a size line has come, what the
/// shortest end of a body still takes.
pub proof fn law_missing_bytes_are_asked_for(
    chunks: Seq<Chunk>,
    line: Seq<u8>,
    size: nat,
    part: Seq<u8>,
    max: int,
)
    requires
        are_sized(chunks),
        chunks.len() < 4096,
        payload(chunks).len() + size <= max <= usize::MAX,
        run(chunks).len() + line.len() + size + 4 <= usize::MAX,
        line.len() <= 8,
        number::writes(line, 16, size),
    ensures
        ({
            let read = progress(run(chunks) + (line + seq![0x0du8, 0x0au8] + part), 0, 0, 0, max);
            part.len() < size + 2 ==> read == Ok::<ChunkedProgress, HttpError>(
                ChunkedProgress::Need((size + 2 - part.len()) as usize),
            )
        }),
        progress(run(chunks), 0, 0, 0, max) == Ok::<ChunkedProgress, HttpError>(
            ChunkedProgress::Need(5),
        ),
        progress(run(chunks) + line, 0, 0, 0, max) == Ok::<ChunkedProgress, HttpError>(
            ChunkedProgress::Need(4),
        ),
        progress(run(chunks) + (line + seq![0x0du8]), 0, 0, 0, max) == Ok::<
            ChunkedProgress,
            HttpError,
        >(ChunkedProgress::Need(3)),
{
    let nothing = Seq::<u8>::empty();
    let offset = run(chunks).len() as int;
    let count = payload(chunks).len() as int;
    let before = chunks.len() as int;
    assert(run(chunks) + nothing =~= run(chunks));
    lemma_sized_run_is_passed(chunks, line + seq![0x0du8, 0x0au8] + part, max);
    lemma_sized_run_is_passed(chunks, nothing, max);
    lemma_sized_run_is_passed(chunks, line, max);
    lemma_sized_run_is_passed(chunks, line + seq![0x0du8], max);
    if part.len() < size + 2 {
        lemma_data_is_needed(line, size, part, offset, count, before, max);
    }
    lemma_line_is_needed(line, size, offset, count, before, max);
}

proof fn lemma_sized_run_is_passed(chunks: Seq<Chunk>, tail: Seq<u8>, max: int)
    requires
        are_sized(chunks),
        chunks.len() < 4096,
        payload(chunks).len() <= max <= usize::MAX,
        run(chunks).len() <= usize::MAX,
    ensures
        progress(run(chunks) + tail, 0, 0, 0, max) == progress(
            tail,
            run(chunks).len() as int,
            payload(chunks).len() as int,
            chunks.len() as int,
            max,
        ),
{
    let nothing = Seq::<u8>::empty();
    assert forall|i: int| 0 <= i < chunks.len() implies is_chunk(#[trigger] chunks[i]) by {
        law_size_lines_are_hexadecimal(chunks[i].line, chunks[i].data.len());
    }
    assert(nothing + payload(chunks) =~= payload(chunks));
    lemma_run_is_passed(chunks, tail, 0, nothing, 0, max);
}

proof fn lemma_data_is_needed(
    line: Seq<u8>,
    size: nat,
    part: Seq<u8>,
    offset: int,
    count: int,
    chunks: int,
    max: int,
)
    requires
        chunks < 4096,
        count + size <= max <= usize::MAX,
        0 <= offset,
        offset + line.len() + size + 4 <= usize::MAX,
        line.len() <= 8,
        number::writes(line, 16, size),
        part.len() < size + 2,
    ensures
        progress(line + bytes::crlf() + part, offset, count, chunks, max) == Ok::<
            ChunkedProgress,
            HttpError,
        >(ChunkedProgress::Need((size + 2 - part.len()) as usize)),
{
    law_size_lines_are_hexadecimal(line, size);
    lemma_line_ends_first(line, part);
}

proof fn lemma_line_is_needed(
    line: Seq<u8>,
    size: nat,
    offset: int,
    count: int,
    chunks: int,
    max: int,
)
    requires
        chunks < 4096,
        line.len() <= 8,
        number::writes(line, 16, size),
    ensures
        progress(Seq::empty(), offset, count, chunks, max) == Ok::<ChunkedProgress, HttpError>(
            ChunkedProgress::Need(5),
        ),
        progress(line, offset, count, chunks, max) == Ok::<ChunkedProgress, HttpError>(
            ChunkedProgress::Need(4),
        ),
        progress(line + seq![0x0du8], offset, count, chunks, max) == Ok::<
            ChunkedProgress,
            HttpError,
        >(ChunkedProgress::Need(3)),
{
    law_size_lines_are_hexadecimal(line, size);
    let cut = line + seq![0x0du8];
    assert forall|i: int| 0 <= i < line.len() implies #[trigger] line[i] != 0x0d by {
        assert(number::is_radix_digit(line[i], 16));
    }
    lemma_no_line_end(Seq::empty());
    lemma_no_line_end(line);
    lemma_no_line_end(cut);
    assert(cut.last() == 0x0d);
    assert(line.last() == line[line.len() - 1]);
}

proof fn lemma_no_line_end(s: Seq<u8>)
    requires
        forall|i: int| 0 <= i < s.len() - 1 ==> #[trigger] s[i] != 0x0d,
    ensures
        bytes::first_index(s, bytes::crlf()) is None,
{
    bytes::lemma_first_index_none(s, bytes::crlf());
    if bytes::contains(s, bytes::crlf()) {
        let i = choose|i: int| bytes::occurs_at(s, bytes::crlf(), i);
        assert(s.subrange(i, i + 2)[0] == 0x0d);
        assert(s[i] == 0x0d);
    }
}

} // verus!
