//! Grapheme cluster boundaries in text that is held in chunks.
use super::utils::{concat_bytes, lemma_concat_bytes_prefix, lemma_str_bytes};
use unicode_segmentation::{GraphemeCursor, GraphemeIncomplete};
use vstd::prelude::*;
use vstd::string::StringSliceAdditionalSpecFns;
use vstd::utf8::{
    is_char_boundary, is_char_boundary_iff_not_is_continuation_byte,
    is_char_boundary_start_end_of_seq, valid_utf8, valid_utf8_concat,
};

verus! {

/// The cursor of `unicode_segmentation` that decides whether one offset of
/// a text is a grapheme cluster boundary, seeing one chunk at a time.
#[verifier::external_type_specification]
#[verifier::external_body]
pub struct ExGraphemeCursor(GraphemeCursor);

/// The offset a cursor asks about.
pub uninterp spec fn cursor_offset(c: GraphemeCursor) -> usize;

/// The offset at which the text that a cursor has asked for ends, while it
/// waits for that text.
pub uninterp spec fn cursor_request(c: GraphemeCursor) -> Option<usize>;

/// The answer of a cursor that has made up its mind.
pub uninterp spec fn cursor_decided(c: GraphemeCursor) -> Option<bool>;

/// The cursor that `GraphemeCursor::new` makes for an offset in a text of
/// a given length.
pub uninterp spec fn cursor_made(offset: usize, len: usize) -> GraphemeCursor;

/// What `GraphemeCursor::is_boundary` gives for a cursor and a chunk that
/// starts at a given offset: the answer, and the cursor as the question
/// leaves it.
pub uninterp spec fn cursor_asked(c: GraphemeCursor, chunk: Seq<u8>, chunk_start: usize) -> (
    BoundaryAnswer,
    GraphemeCursor,
);

/// The cursor as `GraphemeCursor::provide_context` leaves it, for a cursor
/// and a chunk that starts at a given offset.
pub uninterp spec fn cursor_given(
    c: GraphemeCursor,
    chunk: Seq<u8>,
    chunk_start: usize,
) -> GraphemeCursor;

/// What a cursor says when asked whether its offset is a boundary.
pub enum BoundaryAnswer {
    /// It is one, or it is none.
    Decided(bool),
    /// The cursor needs the text that ends at this offset.
    PreContext(usize),
    /// The cursor cannot tell from the chunk it was given.
    Other,
}

/// A cursor for extended grapheme clusters at `offset` in a text of `len`
/// bytes: `GraphemeCursor::new`. The cursor depends on the two numbers
/// alone. A new cursor waits for no text, and knows that the two ends of the
/// text are boundaries.
#[verifier::external_body]
fn new_cursor(offset: usize, len: usize) -> (c: GraphemeCursor)
    ensures
        c == cursor_made(offset, len),
        cursor_offset(c) == offset,
        cursor_request(c) is None,
        offset == 0 || offset == len ==> cursor_decided(c) == Some(true),
{
    GraphemeCursor::new(offset, len, true)
}

/// Asks a cursor whether its offset is a boundary, given the chunk that
/// starts at `chunk_start` and holds the offset:
/// `GraphemeCursor::is_boundary`. The answer, and the cursor after it,
/// depend on the cursor, the chunk and its start alone. The cursor keeps its
/// offset. One that had made up its mind repeats its answer; one that asks
/// for text waits for the text that ends at the offset it names.
#[verifier::external_body]
fn cursor_is_boundary(c: &mut GraphemeCursor, chunk: &str, chunk_start: usize) -> (r:
    BoundaryAnswer)
    requires
        chunk_start <= cursor_offset(*old(c)) <= chunk_start + chunk.spec_bytes().len()
            <= usize::MAX,
        is_char_boundary(chunk.spec_bytes(), cursor_offset(*old(c)) - chunk_start),
    ensures
        (r, *final(c)) == cursor_asked(*old(c), chunk.spec_bytes(), chunk_start),
        cursor_offset(*final(c)) == cursor_offset(*old(c)),
        cursor_decided(*old(c)) matches Some(b) ==> r == BoundaryAnswer::Decided(b),
        r matches BoundaryAnswer::PreContext(o) ==> cursor_request(*final(c)) == Some(o),
{
    match c.is_boundary(chunk, chunk_start) {
        Ok(b) => BoundaryAnswer::Decided(b),
        Err(GraphemeIncomplete::PreContext(o)) => BoundaryAnswer::PreContext(o),
        Err(GraphemeIncomplete::PrevChunk) => BoundaryAnswer::Other,
        Err(GraphemeIncomplete::NextChunk) => BoundaryAnswer::Other,
        Err(GraphemeIncomplete::InvalidOffset) => BoundaryAnswer::Other,
    }
}

/// Hands a cursor the text it waits for, as the chunk that starts at
/// `chunk_start`: `GraphemeCursor::provide_context`. The cursor after it
/// depends on the cursor, the chunk and its start alone, and keeps its
/// offset.
#[verifier::external_body]
fn cursor_provide_context(c: &mut GraphemeCursor, chunk: &str, chunk_start: usize)
    requires
        chunk.spec_bytes().len() > 0,
        chunk_start + chunk.spec_bytes().len() <= usize::MAX,
        cursor_request(*old(c)) == Some((chunk_start + chunk.spec_bytes().len()) as usize),
    ensures
        *final(c) == cursor_given(*old(c), chunk.spec_bytes(), chunk_start),
        cursor_offset(*final(c)) == cursor_offset(*old(c)),
{
    c.provide_context(chunk, chunk_start)
}

/// The bytes of chunks, one after the other, are valid UTF-8.
pub proof fn lemma_concat_bytes_valid(chunks: Seq<&str>)
    ensures
        valid_utf8(concat_bytes(chunks)),
    decreases chunks.len(),
{
    if chunks.len() == 0 {
        assert(valid_utf8(Seq::<u8>::empty()));
    } else {
        lemma_concat_bytes_valid(chunks.drop_last());
        lemma_str_bytes(chunks.last());
        valid_utf8_concat(concat_bytes(chunks.drop_last()), chunks.last().spec_bytes());
    }
}

/// A character boundary of one chunk is a character boundary of the text
/// that the chunks hold, unless it is the end of a chunk that others
/// follow.
pub proof fn lemma_boundary_in_chunk(chunks: Seq<&str>, idx: int, inside: int)
    requires
        0 <= idx < chunks.len(),
        0 <= inside <= chunks[idx].spec_bytes().len(),
        is_char_boundary(chunks[idx].spec_bytes(), inside),
        inside < chunks[idx].spec_bytes().len() || concat_bytes(chunks.take(idx)).len() + inside
            == concat_bytes(chunks).len(),
    ensures
        is_char_boundary(concat_bytes(chunks), concat_bytes(chunks.take(idx)).len() + inside),
{
    let whole = concat_bytes(chunks);
    let chunk = chunks[idx].spec_bytes();
    let start = concat_bytes(chunks.take(idx)).len() as int;
    lemma_concat_bytes_valid(chunks);
    lemma_str_bytes(chunks[idx]);
    lemma_concat_bytes_prefix(chunks, idx);
    lemma_concat_bytes_prefix(chunks, idx + 1);
    if start + inside == whole.len() {
        is_char_boundary_start_end_of_seq(whole);
    } else {
        let upto = concat_bytes(chunks.take(idx + 1));
        assert(whole[start + inside] == upto[start + inside]);
        assert(upto[start + inside] == chunk[inside]);
        is_char_boundary_iff_not_is_continuation_byte(chunk, inside);
        is_char_boundary_iff_not_is_continuation_byte(whole, start + inside);
    }
}

/// The index of the chunk that holds a byte offset: the last chunk that
/// starts at that offset or before it.
pub open spec fn chunk_holding(chunks: Seq<&str>, offset: int) -> int
    decreases chunks.len(),
{
    if chunks.len() <= 1 {
        0
    } else if concat_bytes(chunks.drop_last()).len() <= offset {
        chunks.len() - 1
    } else {
        chunk_holding(chunks.drop_last(), offset)
    }
}

/// Goes back from the last chunk to the one that holds `byte_offset`: the
/// last chunk that starts at that offset or before it. Returns its index and
/// the offset at which it starts.
pub fn chunk_at_offset(chunks: &Vec<&str>, byte_len: usize, byte_offset: usize) -> (r: (
    usize,
    usize,
))
    requires
        byte_offset <= byte_len,
        concat_bytes(chunks@).len() == byte_len,
        chunks.len() > 0,
    ensures
        r.0 == chunk_holding(chunks@, byte_offset as int),
        r.0 < chunks.len(),
        r.1 == concat_bytes(chunks@.take(r.0 as int)).len(),
        r.1 <= byte_offset <= r.1 + chunks@[r.0 as int].spec_bytes().len() <= byte_len,
        byte_offset < r.1 + chunks@[r.0 as int].spec_bytes().len() || byte_offset == byte_len,
        r.0 + 1 < chunks.len() ==> concat_bytes(chunks@.take(r.0 + 1)).len() > byte_offset,
{
    let mut bytes_left = byte_len;
    let mut idx = chunks.len();
    proof {
        assert(chunks@.take(idx as int) =~= chunks@);
    }
    loop
        invariant
            0 < idx <= chunks.len(),
            concat_bytes(chunks@).len() == byte_len,
            byte_offset <= byte_len,
            bytes_left == concat_bytes(chunks@.take(idx as int)).len(),
            bytes_left <= byte_len,
            idx < chunks.len() ==> bytes_left > byte_offset,
            chunk_holding(chunks@, byte_offset as int) == chunk_holding(
                chunks@.take(idx as int),
                byte_offset as int,
            ),
        decreases idx,
    {
        proof {
            assert(chunks@.take(idx as int).drop_last() =~= chunks@.take(idx - 1));
            lemma_concat_bytes_prefix(chunks@, idx - 1);
            lemma_concat_bytes_prefix(chunks@, idx as int);
            assert(concat_bytes(chunks@.take(0)) =~= Seq::<u8>::empty()) by {
                assert(chunks@.take(0) =~= Seq::<&str>::empty());
            }
        }
        let len = chunks[idx - 1].as_bytes().len();
        if bytes_left - len <= byte_offset {
            return (idx - 1, bytes_left - len);
        }
        idx = idx - 1;
        bytes_left = bytes_left - len;
    }
}

/// The index of the last chunk before the chunk `before` that is not
/// empty, and -1 if there is none.
pub open spec fn last_filled_before(chunks: Seq<&str>, before: int) -> int
    decreases before,
{
    if before <= 0 {
        -1
    } else if chunks[before - 1].spec_bytes().len() > 0 {
        before - 1
    } else {
        last_filled_before(chunks, before - 1)
    }
}

/// The chunks between the last chunk that is not empty and a later chunk
/// are empty: the text ends where that chunk ends.
pub proof fn lemma_last_filled_before(chunks: Seq<&str>, before: int)
    requires
        0 <= before <= chunks.len(),
    ensures
        -1 <= last_filled_before(chunks, before) < before,
        concat_bytes(chunks.take(last_filled_before(chunks, before) + 1)).len() == concat_bytes(
            chunks.take(before),
        ).len(),
        last_filled_before(chunks, before) >= 0 ==> chunks[last_filled_before(
            chunks,
            before,
        )].spec_bytes().len() > 0,
    decreases before,
{
    if before > 0 && chunks[before - 1].spec_bytes().len() == 0 {
        lemma_last_filled_before(chunks, before - 1);
        lemma_concat_bytes_prefix(chunks, before - 1);
    }
}

/// The last chunk before the chunk `before` that is not empty, if there is
/// one.
pub fn chunk_before(chunks: &Vec<&str>, before: usize) -> (r: Option<usize>)
    requires
        before <= chunks.len(),
    ensures
        r == if last_filled_before(chunks@, before as int) >= 0 {
            Some(last_filled_before(chunks@, before as int) as usize)
        } else {
            None
        },
{
    let mut k = before;
    while k > 0
        invariant
            k <= before <= chunks.len(),
            last_filled_before(chunks@, k as int) == last_filled_before(chunks@, before as int),
        decreases k,
    {
        if chunks[k - 1].as_bytes().len() > 0 {
            return Some(k - 1);
        }
        k = k - 1;
    }
    None
}

/// What follows from the answer of a cursor.
pub enum NextStep {
    /// The offset is a boundary, or it is none.
    Answer(bool),
    /// The cursor is to get the chunk with this index.
    Provide(usize),
}

/// What follows from the answer of a cursor that has seen the chunks from
/// the chunk `before` on, which start at the offset `context_end`.
pub open spec fn step_after(
    chunks: Seq<&str>,
    before: int,
    context_end: int,
    answer: BoundaryAnswer,
) -> NextStep {
    match answer {
        BoundaryAnswer::Decided(b) => NextStep::Answer(b),
        BoundaryAnswer::PreContext(wanted) => if wanted == context_end && last_filled_before(
            chunks,
            before,
        ) >= 0 {
            NextStep::Provide(last_filled_before(chunks, before) as usize)
        } else {
            NextStep::Answer(false)
        },
        BoundaryAnswer::Other => NextStep::Answer(false),
    }
}

/// What the cursor `c`, which asks about an offset in the chunk `idx` and
/// has seen the chunks from the chunk `before` on, comes to: it is asked
/// with the chunk `idx`, and as long as it waits for the text before what
/// it has seen, it is given the chunk before that and asked again.
pub open spec fn cursor_verdict(chunks: Seq<&str>, c: GraphemeCursor, idx: int, before: int) -> bool
    decreases before,
{
    let asked = cursor_asked(
        c,
        chunks[idx].spec_bytes(),
        concat_bytes(chunks.take(idx)).len() as usize,
    );
    match step_after(chunks, before, concat_bytes(chunks.take(before)).len() as int, asked.0) {
        NextStep::Answer(b) => b,
        NextStep::Provide(k) => if k < before {
            cursor_verdict(
                chunks,
                cursor_given(
                    asked.1,
                    chunks[k as int].spec_bytes(),
                    concat_bytes(chunks.take(k as int)).len() as usize,
                ),
                idx,
                k as int,
            )
        } else {
            false
        },
    }
}

/// Whether a byte offset is a grapheme cluster boundary in the text that
/// the chunks hold: in a text without chunks it is; else it is one if it is
/// a character boundary of the chunk that holds it and a new cursor for it
/// comes to that.
pub open spec fn boundary_in_chunks(chunks: Seq<&str>, byte_len: usize, byte_offset: usize) -> bool {
    if chunks.len() == 0 {
        true
    } else {
        let idx = chunk_holding(chunks, byte_offset as int);
        is_char_boundary(
            chunks[idx].spec_bytes(),
            byte_offset - concat_bytes(chunks.take(idx)).len(),
        ) && cursor_verdict(chunks, cursor_made(byte_offset, byte_len), idx, idx)
    }
}

/// What follows from the answer of a cursor that has seen the chunks from
/// the chunk `before` on, which start at the offset `context_end`. An
/// answer that is made up stands. A cursor that waits for the text that ends
/// at `context_end` is to get the last chunk before those it has seen that
/// is not empty. Where there is no such chunk, where the cursor waits for
/// other text, and where it cannot tell, the offset counts as no boundary.
pub fn after_answer(
    chunks: &Vec<&str>,
    before: usize,
    context_end: usize,
    answer: BoundaryAnswer,
) -> (r: NextStep)
    requires
        before <= chunks.len(),
    ensures
        r == step_after(chunks@, before as int, context_end as int, answer),
{
    match answer {
        BoundaryAnswer::Decided(b) => NextStep::Answer(b),
        BoundaryAnswer::PreContext(wanted) => {
            if wanted != context_end {
                return NextStep::Answer(false);
            }
            match chunk_before(chunks, before) {
                Some(k) => NextStep::Provide(k),
                None => NextStep::Answer(false),
            }
        },
        BoundaryAnswer::Other => NextStep::Answer(false),
    }
}

/// Returns whether `byte_offset` is a grapheme cluster boundary in the text
/// that the chunks hold, one after the other: what a cursor for that offset
/// comes to when it is asked with the chunk that holds the offset and given
/// the chunks before it, one by one, as it asks for them. The two ends of
/// the text are boundaries, and no offset inside a character is one. Where
/// the cursor asks for text that no chunk ends with, or cannot tell, the
/// answer is `false`.
pub fn is_grapheme_boundary(chunks: &Vec<&str>, byte_len: usize, byte_offset: usize) -> (r: bool)
    requires
        byte_offset <= byte_len,
        concat_bytes(chunks@).len() == byte_len,
    ensures
        r == boundary_in_chunks(chunks@, byte_len, byte_offset),
        byte_offset == 0 || byte_offset == byte_len ==> r,
        r ==> is_char_boundary(concat_bytes(chunks@), byte_offset as int),
{
    if chunks.len() == 0 {
        proof {
            lemma_concat_bytes_valid(chunks@);
            is_char_boundary_start_end_of_seq(concat_bytes(chunks@));
        }
        return true;
    }
    let (idx, chunk_start) = chunk_at_offset(chunks, byte_len, byte_offset);
    let chunk = chunks[idx];
    proof {
        lemma_str_bytes(chunk);
    }
    if !chunk.is_char_boundary(byte_offset - chunk_start) {
        return false;
    }
    proof {
        lemma_boundary_in_chunk(chunks@, idx as int, byte_offset - chunk_start);
    }
    let mut cursor = new_cursor(byte_offset, byte_len);
    let mut before = idx;
    let mut context_end = chunk_start;
    loop
        invariant
            before <= idx < chunks.len(),
            cursor_offset(cursor) == byte_offset,
            chunk_start <= byte_offset <= chunk_start + chunk.spec_bytes().len() <= usize::MAX,
            is_char_boundary(chunk.spec_bytes(), byte_offset - chunk_start),
            is_char_boundary(concat_bytes(chunks@), byte_offset as int),
            byte_offset == 0 || byte_offset == byte_len ==> cursor_decided(cursor) == Some(true),
            context_end == concat_bytes(chunks@.take(before as int)).len(),
            chunk == chunks@[idx as int],
            chunk_start == concat_bytes(chunks@.take(idx as int)).len(),
            boundary_in_chunks(chunks@, byte_len, byte_offset) == cursor_verdict(
                chunks@,
                cursor,
                idx as int,
                before as int,
            ),
        decreases before,
    {
        let answer = cursor_is_boundary(&mut cursor, chunk, chunk_start);
        match after_answer(chunks, before, context_end, answer) {
            NextStep::Answer(b) => {
                return b;
            },
            NextStep::Provide(k) => {
                proof {
                    lemma_last_filled_before(chunks@, before as int);
                    lemma_concat_bytes_prefix(chunks@, k as int);
                }
                let prev = chunks[k];
                before = k;
                context_end = context_end - prev.as_bytes().len();
                cursor_provide_context(&mut cursor, prev, context_end);
            },
        }
    }
}

} // verus!
