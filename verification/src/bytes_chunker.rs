//! The byte-length strategy: windows are measured in bytes, with window ends
//! pulled back to the nearest UTF-8 character boundary so that a chunk never
//! splits a multi-byte character.

use vstd::prelude::*;
use vstd::utf8::*;

use crate::boundaries::{
    boundary_back, lemma_boundary_back_at_least, lemma_boundary_back_props,
    lemma_boundary_back_shift, lemma_valid_slice,
};
use crate::ChunkingError;

verus! {

/// The end offset of the window starting at `start`: `chunk_size` bytes
/// ahead, capped at the end of the buffer; when the cap does not apply, the
/// target is pulled back to the nearest character boundary.
pub open spec fn span_end(t: Seq<u8>, start: int, chunk_size: int) -> int {
    if start + chunk_size >= t.len() {
        t.len() as int
    } else {
        boundary_back(t, start + chunk_size)
    }
}

/// The cursor after emitting the window starting at `start`: the window's end
/// minus the overlap, pulled back to the nearest character boundary so that
/// consecutive chunks share at least `overlap` bytes.  When the window is too
/// short to step past the overlap, the cursor stays put: the engine cannot
/// make progress there.
pub open spec fn next_cursor(t: Seq<u8>, start: int, chunk_size: int, overlap: int) -> int {
    let e = span_end(t, start, chunk_size);
    if e - start <= overlap {
        start
    } else {
        boundary_back(t, start + (e - start - overlap))
    }
}

/// All byte-strategy windows emitted from cursor `pos` to the end of the
/// buffer.  A window that reaches the end of the buffer is the final one; a
/// step that cannot advance the cursor ends the sequence with no further
/// windows (the engine reports this as an internal error).
pub open spec fn byte_spans(t: Seq<u8>, chunk_size: int, overlap: int, pos: int) -> Seq<(int, int)>
    decreases t.len() - pos,
{
    if pos < 0 || pos >= t.len() {
        Seq::empty()
    } else {
        let e = span_end(t, pos, chunk_size);
        if e >= t.len() {
            seq![(pos, t.len() as int)]
        } else {
            let nx = next_cursor(t, pos, chunk_size, overlap);
            if nx <= pos || nx >= t.len() {
                Seq::empty()
            } else {
                seq![(pos, e)] + byte_spans(t, chunk_size, overlap, nx)
            }
        }
    }
}

/// True when the byte-strategy engine, run from cursor `pos`, eventually
/// reaches a window from which it cannot advance: the sequence of windows is
/// then cut short by an internal error.
pub open spec fn byte_chunking_stalls(t: Seq<u8>, chunk_size: int, overlap: int, pos: int) -> bool
    decreases t.len() - pos,
{
    if pos < 0 || pos >= t.len() {
        false
    } else {
        let e = span_end(t, pos, chunk_size);
        if e >= t.len() {
            false
        } else {
            let nx = next_cursor(t, pos, chunk_size, overlap);
            if nx <= pos || nx >= t.len() {
                true
            } else {
                byte_chunking_stalls(t, chunk_size, overlap, nx)
            }
        }
    }
}

/// Walks backward from `i` to the nearest position that does not hold a UTF-8
/// continuation byte, mirroring `boundary_back`.
fn find_boundary_back(text: &Vec<u8>, i: usize) -> (b: usize)
    requires
        i <= text@.len(),
    ensures
        b as int == boundary_back(text@, i as int),
        b <= i,
{
    let mut j = i;
    loop
        invariant
            j <= i <= text@.len(),
            boundary_back(text@, j as int) == boundary_back(text@, i as int),
        decreases j,
    {
        if j == 0 || j >= text.len() {
            return j;
        }
        let byte = text[j];
        if !(0x80 <= byte && byte <= 0xbf) {
            return j;
        }
        j = j - 1;
    }
}

/// Copies the bytes of `src` in the range `start .. end`.
pub(crate) fn copy_range(src: &Vec<u8>, start: usize, end: usize) -> (out: Vec<u8>)
    requires
        start <= end <= src@.len(),
    ensures
        out@ == src@.subrange(start as int, end as int),
{
    vstd::slice::slice_to_vec(vstd::slice::slice_subrange(src.as_slice(), start, end))
}

/// Computes the next chunk's start and end byte offsets under the byte
/// strategy and advances the cursor, exactly as `span_end` and `next_cursor`
/// describe.  Returns `Ok(None)` once the cursor has reached the end of the
/// buffer, and an internal error when the step after the computed window
/// cannot advance the cursor.
pub fn chunk_indices(
    text: &Vec<u8>,
    chunk_size: usize,
    overlap: usize,
    current_position: &mut usize,
) -> (r: Result<Option<(usize, usize)>, ChunkingError>)
    requires
        overlap < chunk_size,
        valid_utf8(text@),
        *old(current_position) <= text@.len(),
        is_char_boundary(text@, *old(current_position) as int),
    ensures
        ({
            let t = text@;
            let pos0 = *old(current_position) as int;
            let cs = chunk_size as int;
            let ov = overlap as int;
            let nx = next_cursor(t, pos0, cs, ov);
            match r {
                Ok(opt) => match opt {
                    None => pos0 >= t.len() && *final(current_position) == *old(current_position),
                    Some(span) => {
                        &&& pos0 < t.len()
                        &&& span.0 as int == pos0
                        &&& span.1 as int == span_end(t, pos0, cs)
                        &&& span.0 < span.1
                        &&& span.1 <= text@.len()
                        &&& (span.1 as int == t.len() ==> *final(current_position) as int
                            == t.len())
                        &&& ((span.1 as int) < t.len() ==> *final(current_position) as int == nx
                            && pos0 < nx < t.len())
                        &&& *final(current_position) <= text@.len()
                        &&& is_char_boundary(t, *final(current_position) as int)
                    },
                },
                Err(er) => {
                    &&& er == ChunkingError::Unknown
                    &&& pos0 < t.len()
                    &&& span_end(t, pos0, cs) < t.len()
                    &&& (nx <= pos0 || nx >= t.len())
                    &&& *final(current_position) == *old(current_position)
                },
            }
        }),
{
    let text_len = text.len();
    let pos = *current_position;

    // Done
    if pos >= text_len {
        return Ok(None);
    }
    let ghost t = text@;
    proof {
        is_char_boundary_iff_not_is_continuation_byte(t, pos as int);
    }

    let start = pos;

    // Target end position, capped at the end of the buffer; otherwise pulled
    // back to a character boundary.
    let end: usize = if chunk_size >= text_len - start {
        text_len
    } else {
        find_boundary_back(text, start + chunk_size)
    };
    proof {
        if (start + chunk_size) < t.len() {
            lemma_boundary_back_props(t, start + chunk_size as int);
            lemma_boundary_back_at_least(t, start + chunk_size as int, start as int);
        }
        assert(end as int == span_end(t, start as int, chunk_size as int));
    }

    // If we've reached the end of text, we're done after this chunk.
    if end >= text_len {
        *current_position = text_len;
        proof {
            is_char_boundary_start_end_of_seq(t);
        }
        return Ok(Some((start, end)));
    }

    // The step past the overlap; without progress the engine is in a state
    // the construction-time checks were meant to rule out.
    let produced = end - start;
    if produced <= overlap {
        return Err(ChunkingError::Unknown);
    }
    let step = produced - overlap;

    // Pull the next cursor backward to a character boundary, so the realized
    // overlap is never less than requested.
    let next_pos = find_boundary_back(text, start + step);
    proof {
        lemma_boundary_back_props(t, start + step as int);
        lemma_boundary_back_at_least(t, start + step as int, start as int);
    }
    if next_pos <= start {
        return Err(ChunkingError::Unknown);
    }
    *current_position = next_pos;
    Ok(Some((start, end)))
}

/// A lazily-evaluated sequence of byte-strategy chunks over an in-memory
/// buffer: an explicit state object holding the text and the cursor, pulled
/// one chunk at a time.
pub struct ByteChunks {
    text: Vec<u8>,
    chunk_size: usize,
    overlap: usize,
    position: usize,
}

impl ByteChunks {
    /// The UTF-8 bytes being chunked.
    pub closed spec fn text_bytes(self) -> Seq<u8> {
        self.text@
    }

    /// The byte offset where the next chunk starts.
    pub closed spec fn cursor(self) -> int {
        self.position as int
    }

    /// The configured chunk size, in bytes.
    pub closed spec fn spec_chunk_size(self) -> int {
        self.chunk_size as int
    }

    /// The configured overlap, in bytes.
    pub closed spec fn spec_overlap(self) -> int {
        self.overlap as int
    }

    /// Validity: the overlap is smaller than the chunk size, the text is
    /// valid UTF-8, and the cursor lies on a character boundary.
    pub closed spec fn wf(self) -> bool {
        &&& self.overlap < self.chunk_size
        &&& valid_utf8(self.text@)
        &&& self.position <= self.text@.len()
        &&& is_char_boundary(self.text@, self.position as int)
    }

    /// The spans of the chunks still to be emitted.
    pub open spec fn remaining(self) -> Seq<(int, int)> {
        byte_spans(self.text_bytes(), self.spec_chunk_size(), self.spec_overlap(), self.cursor())
    }

    /// Pulls the next chunk.  Returns `Ok(None)` once the text is exhausted,
    /// and `Err(ChunkingError::Unknown)` when the engine cannot advance past
    /// the current window.
    pub fn next(&mut self) -> (r: Result<Option<String>, ChunkingError>)
        requires
            old(self).wf(),
        ensures
            final(self).wf(),
            final(self).text_bytes() == old(self).text_bytes(),
            final(self).spec_chunk_size() == old(self).spec_chunk_size(),
            final(self).spec_overlap() == old(self).spec_overlap(),
            match r {
                Ok(opt) => match opt {
                    Some(chunk) => {
                        &&& old(self).remaining().len() > 0
                        &&& chunk@ == decode_utf8(
                            old(self).text_bytes().subrange(
                                old(self).remaining()[0].0,
                                old(self).remaining()[0].1,
                            ),
                        )
                        &&& final(self).remaining() == old(self).remaining().drop_first()
                        &&& old(self).cursor() < final(self).cursor()
                        &&& old(self).remaining()[0].0 == old(self).cursor()
                        &&& old(self).remaining()[0].1 == span_end(
                            old(self).text_bytes(),
                            old(self).cursor(),
                            old(self).spec_chunk_size(),
                        )
                        &&& (old(self).remaining()[0].1 < old(self).text_bytes().len()
                            ==> final(self).cursor() == next_cursor(
                            old(self).text_bytes(),
                            old(self).cursor(),
                            old(self).spec_chunk_size(),
                            old(self).spec_overlap(),
                        ))
                        &&& (old(self).remaining()[0].1 >= old(self).text_bytes().len()
                            ==> final(self).cursor() == old(self).text_bytes().len())
                    },
                    None => old(self).cursor() >= old(self).text_bytes().len() && *final(self)
                        == *old(self),
                },
                Err(e) => {
                    &&& e == ChunkingError::Unknown
                    &&& byte_chunking_stalls(
                        old(self).text_bytes(),
                        old(self).spec_chunk_size(),
                        old(self).spec_overlap(),
                        old(self).cursor(),
                    )
                    &&& old(self).remaining().len() == 0
                    &&& *final(self) == *old(self)
                },
            },
    {
        let ghost t = self.text@;
        let ghost pos0 = self.position as int;
        let ghost cs = self.chunk_size as int;
        let ghost ov = self.overlap as int;
        let step = chunk_indices(&self.text, self.chunk_size, self.overlap, &mut self.position);
        match step {
            Ok(opt) => match opt {
                Some(span) => {
                    let (s, e) = span;
                    proof {
                        if e as int == t.len() {
                            is_char_boundary_start_end_of_seq(t);
                        } else {
                            lemma_boundary_back_props(t, pos0 + cs);
                        }
                        lemma_valid_slice(t, s as int, e as int);
                        if (e as int) < t.len() {
                            assert(final(self).remaining() == old(self).remaining().drop_first())
                                by {
                                assert(old(self).remaining() =~= seq![(pos0, e as int)]
                                    + final(self).remaining());
                            }
                        } else {
                            assert(old(self).remaining() =~= seq![(pos0, e as int)]);
                            assert(final(self).remaining() =~= old(
                                self,
                            ).remaining().drop_first());
                        }
                    }
                    let chunk_bytes = copy_range(&self.text, s, e);
                    Ok(Some(crate::bytes_to_string(chunk_bytes)))
                },
                None => Ok(None),
            },
            Err(e) => Err(e),
        }
    }

    /// Pulls every remaining chunk, in order.
    #[verifier::loop_isolation(false)]
    pub fn all(&mut self) -> (r: Result<Vec<String>, ChunkingError>)
        requires
            old(self).wf(),
        ensures
            final(self).wf(),
            final(self).text_bytes() == old(self).text_bytes(),
            match r {
                Ok(chunks) => {
                    let t = old(self).text_bytes();
                    let spans = old(self).remaining();
                    &&& !byte_chunking_stalls(
                        t,
                        old(self).spec_chunk_size(),
                        old(self).spec_overlap(),
                        old(self).cursor(),
                    )
                    &&& chunks@.len() == spans.len()
                    &&& forall|i: int|
                        0 <= i < spans.len() ==> (#[trigger] chunks@[i])@ == decode_utf8(
                            t.subrange(spans[i].0, spans[i].1),
                        )
                },
                Err(e) => e == ChunkingError::Unknown && byte_chunking_stalls(
                    old(self).text_bytes(),
                    old(self).spec_chunk_size(),
                    old(self).spec_overlap(),
                    old(self).cursor(),
                ),
            },
    {
        let ghost t = old(self).text_bytes();
        let ghost cs = old(self).spec_chunk_size();
        let ghost ov = old(self).spec_overlap();
        let ghost spans0 = old(self).remaining();
        let mut out: Vec<String> = Vec::new();
        loop
            invariant
                self.wf(),
                self.text_bytes() == t,
                self.spec_chunk_size() == cs,
                self.spec_overlap() == ov,
                out@.len() <= spans0.len(),
                self.remaining() =~= spans0.skip(out@.len() as int),
                byte_chunking_stalls(t, cs, ov, self.cursor()) == byte_chunking_stalls(
                    t,
                    cs,
                    ov,
                    old(self).cursor(),
                ),
                forall|i: int|
                    0 <= i < out@.len() ==> (#[trigger] out@[i])@ == decode_utf8(
                        t.subrange(spans0[i].0, spans0[i].1),
                    ),
            decreases t.len() - self.cursor(),
        {
            let ghost cur = self.cursor();
            let ghost rem = self.remaining();
            let r = self.next();
            match r {
                Ok(opt) => match opt {
                    Some(chunk) => {
                        proof {
                            assert(rem[0] == spans0[out@.len() as int]);
                            assert(self.remaining() =~= spans0.skip(out@.len() + 1int));
                            if rem[0].1 < t.len() {
                                assert(byte_chunking_stalls(t, cs, ov, cur)
                                    == byte_chunking_stalls(t, cs, ov, self.cursor()));
                            } else {
                                assert(!byte_chunking_stalls(t, cs, ov, cur));
                                assert(!byte_chunking_stalls(t, cs, ov, self.cursor()));
                            }
                        }
                        out.push(chunk);
                    },
                    None => {
                        proof {
                            assert(rem =~= Seq::<(int, int)>::empty());
                            assert(out@.len() == spans0.len());
                            assert(!byte_chunking_stalls(t, cs, ov, self.cursor()));
                        }
                        return Ok(out);
                    },
                },
                Err(e) => {
                    return Err(e);
                },
            }
        }
    }
}

/// Every chunk the byte strategy emits starts and ends on a character
/// boundary of the text, is itself valid UTF-8, and is never longer than the
/// chunk size.
pub proof fn lemma_byte_chunks_valid(t: Seq<u8>, chunk_size: int, overlap: int, pos: int)
    requires
        valid_utf8(t),
        0 <= overlap < chunk_size,
        0 <= pos <= t.len(),
        is_char_boundary(t, pos),
    ensures
        forall|i: int|
            0 <= i < byte_spans(t, chunk_size, overlap, pos).len() ==> {
                let span = #[trigger] byte_spans(t, chunk_size, overlap, pos)[i];
                &&& is_char_boundary(t, span.0)
                &&& is_char_boundary(t, span.1)
                &&& pos <= span.0 < span.1 <= t.len()
                &&& span.1 - span.0 <= chunk_size
                &&& valid_utf8(t.subrange(span.0, span.1))
            },
    decreases t.len() - pos,
{
    broadcast use is_char_boundary_start_end_of_seq, is_char_boundary_iff_not_is_continuation_byte;

    if pos >= t.len() {
    } else {
        let e = span_end(t, pos, chunk_size);
        if pos + chunk_size < t.len() {
            lemma_boundary_back_props(t, pos + chunk_size);
            lemma_boundary_back_at_least(t, pos + chunk_size, pos);
        }
        if e >= t.len() {
            lemma_valid_slice(t, pos, t.len() as int);
        } else {
            let nx = next_cursor(t, pos, chunk_size, overlap);
            if nx <= pos || nx >= t.len() {
            } else {
                assert(e - pos > overlap);
                lemma_valid_slice(t, pos, e);
                lemma_boundary_back_props(t, pos + (e - pos - overlap));
                lemma_byte_chunks_valid(t, chunk_size, overlap, nx);
                let spans = byte_spans(t, chunk_size, overlap, pos);
                let tail = byte_spans(t, chunk_size, overlap, nx);
                assert forall|i: int| 0 <= i < spans.len() implies {
                    let span = #[trigger] spans[i];
                    &&& is_char_boundary(t, span.0)
                    &&& is_char_boundary(t, span.1)
                    &&& pos <= span.0 < span.1 <= t.len()
                    &&& span.1 - span.0 <= chunk_size
                    &&& valid_utf8(t.subrange(span.0, span.1))
                } by {
                    if i > 0 {
                        assert(spans[i] == tail[i - 1]);
                    }
                }
            }
        }
    }
}

/// Coverage: when the engine never stalls, the chunks start at the cursor,
/// the last one ends at the end of the text, consecutive chunks leave no gap
/// between them, and they share at least `overlap` bytes.
pub proof fn lemma_byte_chunks_cover(t: Seq<u8>, chunk_size: int, overlap: int, pos: int)
    requires
        valid_utf8(t),
        0 <= overlap < chunk_size,
        0 <= pos < t.len(),
        is_char_boundary(t, pos),
        !byte_chunking_stalls(t, chunk_size, overlap, pos),
    ensures
        ({
            let spans = byte_spans(t, chunk_size, overlap, pos);
            &&& spans.len() > 0
            &&& spans[0].0 == pos
            &&& spans.last().1 == t.len()
            &&& forall|i: int|
                0 <= i < spans.len() - 1 ==> (#[trigger] spans[i + 1]).0 <= spans[i].1
                    && spans[i].1 - spans[i + 1].0 >= overlap
        }),
    decreases t.len() - pos,
{
    broadcast use is_char_boundary_start_end_of_seq, is_char_boundary_iff_not_is_continuation_byte;

    let spans = byte_spans(t, chunk_size, overlap, pos);
    let e = span_end(t, pos, chunk_size);
    if pos + chunk_size < t.len() {
        lemma_boundary_back_props(t, pos + chunk_size);
        lemma_boundary_back_at_least(t, pos + chunk_size, pos);
    }
    if e >= t.len() {
    } else {
        let nx = next_cursor(t, pos, chunk_size, overlap);
        assert(nx > pos && nx < t.len());
        assert(e - pos > overlap);
        lemma_boundary_back_props(t, pos + (e - pos - overlap));
        lemma_byte_chunks_cover(t, chunk_size, overlap, nx);
        let tail = byte_spans(t, chunk_size, overlap, nx);
        assert(spans[0].1 == e);
        assert(spans[1] == tail[0]);
        assert(spans[1].0 == nx);
        assert(nx <= pos + (e - pos - overlap));
        assert forall|i: int|
            0 <= i < spans.len() - 1 implies (#[trigger] spans[i + 1]).0 <= spans[i].1 && spans[i].1
            - spans[i + 1].0 >= overlap by {
            if i == 0 {
                assert(spans[1].0 == nx);
                assert(spans[0].1 == e);
                assert(e - nx >= overlap);
            } else {
                assert(spans[i] == tail[i - 1]);
                assert(spans[i + 1] == tail[i]);
                assert(tail[(i - 1) + 1].0 <= tail[i - 1].1 && tail[i - 1].1 - tail[(i - 1)
                    + 1].0 >= overlap);
            }
        }
    }
}

/// Reconstruction for the byte strategy: taking, for every chunk but the
/// last, the piece from its start to the next chunk's start, and then the
/// whole last chunk, tiles the text from the cursor onward exactly.  The
/// dropped tail of each chunk is its realized overlap with the next chunk:
/// at least `overlap` bytes, and exactly `overlap` whenever the stepped
/// cursor was not pulled back to an earlier character boundary.
pub proof fn lemma_byte_reconstruction(t: Seq<u8>, chunk_size: int, overlap: int, pos: int)
    requires
        valid_utf8(t),
        0 <= overlap < chunk_size,
        0 <= pos < t.len(),
        is_char_boundary(t, pos),
        !byte_chunking_stalls(t, chunk_size, overlap, pos),
    ensures
        crate::boundaries::rebuild(t, byte_spans(t, chunk_size, overlap, pos)) == t.subrange(
            pos,
            t.len() as int,
        ),
    decreases t.len() - pos,
{
    broadcast use is_char_boundary_start_end_of_seq, is_char_boundary_iff_not_is_continuation_byte;

    let spans = byte_spans(t, chunk_size, overlap, pos);
    let e = span_end(t, pos, chunk_size);
    if pos + chunk_size < t.len() {
        lemma_boundary_back_props(t, pos + chunk_size);
        lemma_boundary_back_at_least(t, pos + chunk_size, pos);
    }
    if e >= t.len() {
        assert(spans =~= seq![(pos, t.len() as int)]);
        assert(crate::boundaries::rebuild(t, spans) == t.subrange(pos, t.len() as int));
    } else {
        let nx = next_cursor(t, pos, chunk_size, overlap);
        assert(nx > pos && nx < t.len());
        lemma_boundary_back_props(t, pos + (e - pos - overlap));
        lemma_byte_reconstruction(t, chunk_size, overlap, nx);
        let tail = byte_spans(t, chunk_size, overlap, nx);
        lemma_byte_chunks_cover(t, chunk_size, overlap, nx);
        assert(tail[0].0 == nx);
        assert(spans.drop_first() =~= tail);
        assert(crate::boundaries::rebuild(t, spans) == t.subrange(pos, nx)
            + crate::boundaries::rebuild(t, tail));
        assert(t.subrange(pos, nx) + t.subrange(nx, t.len() as int) =~= t.subrange(
            pos,
            t.len() as int,
        ));
    }
}

/// Reconstruction in the literal trimming form: on inputs where no stepped
/// cursor had to be pulled back to an earlier character boundary, every
/// realized overlap is exactly `overlap`, so the piece of each chunk up to
/// the next chunk's start is the chunk with its last `overlap` bytes
/// removed, and those pieces followed by the whole final chunk concatenate
/// to the input.  With multi-byte characters a pulled-back cursor makes the
/// realized overlap larger, and this literal form does not hold.
pub proof fn lemma_byte_reconstruction_exact(t: Seq<u8>, chunk_size: int, overlap: int, pos: int)
    requires
        valid_utf8(t),
        0 <= overlap < chunk_size,
        0 <= pos < t.len(),
        is_char_boundary(t, pos),
        !byte_chunking_stalls(t, chunk_size, overlap, pos),
        forall|i: int|
            0 <= i < byte_spans(t, chunk_size, overlap, pos).len() - 1 ==> (#[trigger] byte_spans(
                t,
                chunk_size,
                overlap,
                pos,
            )[i + 1]).0 == byte_spans(t, chunk_size, overlap, pos)[i].1 - overlap,
    ensures
        crate::boundaries::rebuild(t, byte_spans(t, chunk_size, overlap, pos)) == t.subrange(
            pos,
            t.len() as int,
        ),
        forall|i: int|
            0 <= i < byte_spans(t, chunk_size, overlap, pos).len() - 1 ==> {
                let span = #[trigger] byte_spans(t, chunk_size, overlap, pos)[i];
                let next = byte_spans(t, chunk_size, overlap, pos)[i + 1];
                t.subrange(span.0, next.0) == t.subrange(span.0, span.1 - overlap)
            },
{
    lemma_byte_reconstruction(t, chunk_size, overlap, pos);
}

/// Empty input yields no chunks under the byte strategy.
pub proof fn lemma_byte_empty_input(chunk_size: int, overlap: int)
    ensures
        byte_spans(Seq::<u8>::empty(), chunk_size, overlap, 0) == Seq::<(int, int)>::empty(),
{
    assert(byte_spans(Seq::<u8>::empty(), chunk_size, overlap, 0) =~= Seq::<(int, int)>::empty());
}

/// Streams byte-strategy chunks over input that arrives in blocks: the
/// embedding program reads raw blocks, for instance from a file, pushes
/// them in, and pulls chunks out.  The working buffer keeps a bounded
/// window of the decoded text; the consumed prefix is dropped once the
/// cursor is far enough past the buffer origin.
pub struct ByteStreamChunker {
    decoder: crate::stream::Utf8Decoder,
    buffer: Vec<u8>,
    position: usize,
    chunk_size: usize,
    overlap: usize,
    input_done: bool,
    stalled: bool,
}

impl ByteStreamChunker {
    /// All raw bytes pushed so far.
    pub closed spec fn fed(self) -> Seq<u8> {
        self.decoder.fed()
    }

    /// The prefix of the fed bytes decoded so far, as whole characters.
    pub closed spec fn decoded(self) -> Seq<u8> {
        self.decoder.decoded()
    }

    /// Whether the decoder departed from plain hold-back decoding.
    pub closed spec fn tainted(self) -> bool {
        self.decoder.tainted()
    }

    /// The offset into the decoded text where the next chunk starts.
    pub closed spec fn cursor(self) -> int {
        self.decoded().len() - self.buffer@.len() + self.position
    }

    /// The configured chunk size, in bytes.
    pub closed spec fn spec_chunk_size(self) -> int {
        self.chunk_size as int
    }

    /// The configured overlap, in bytes.
    pub closed spec fn spec_overlap(self) -> int {
        self.overlap as int
    }

    /// Whether the end of the input has been declared.
    pub closed spec fn done(self) -> bool {
        self.input_done
    }

    /// Whether the engine has reported that it cannot advance.
    pub closed spec fn spec_stalled(self) -> bool {
        self.stalled
    }

    /// How much decoded text is buffered past the cursor.
    pub closed spec fn lookahead(self) -> int {
        self.buffer@.len() - self.position
    }

    spec fn base(self) -> int {
        self.decoded().len() - self.buffer@.len()
    }

    spec fn lookahead_target(self) -> int {
        if 5 * (self.chunk_size as int) > usize::MAX as int {
            usize::MAX as int
        } else {
            5 * (self.chunk_size as int)
        }
    }

    /// Validity: the buffer is a suffix window of the decoded text, the
    /// cursor lies on a character boundary, and the sizes are consistent.
    pub closed spec fn wf(self) -> bool {
        &&& self.overlap < self.chunk_size
        &&& self.chunk_size < usize::MAX
        &&& self.decoder.wf()
        &&& self.position <= self.buffer@.len()
        &&& valid_utf8(self.buffer@)
        &&& is_char_boundary(self.buffer@, self.position as int)
        &&& (!self.tainted() ==> {
            let d = self.decoded();
            &&& 0 <= self.base() <= d.len()
            &&& self.buffer@ == d.subrange(self.base(), d.len() as int)
            &&& valid_utf8(d)
            &&& is_char_boundary(d, self.base())
            &&& is_char_boundary(d, self.cursor())
        })
    }

    /// True while more input could change what the next pull returns: the
    /// input has not ended and the buffer holds less than five chunk-sizes
    /// of lookahead.
    pub open spec fn spec_needs_input(self) -> bool {
        !self.done() && self.lookahead() < self.spec_lookahead_target()
    }

    /// The lookahead the machine tops up to: five chunk-sizes, capped at
    /// the largest buffer a machine address can index.
    pub closed spec fn spec_lookahead_target(self) -> int {
        self.lookahead_target()
    }

    /// Checked construction; the chunk size must also leave room for the
    /// lookahead arithmetic of the machine.
    pub fn new(chunk_size: usize, overlap: usize, policy: crate::stream::DecodePolicy) -> (r:
        Result<Self, ChunkingError>)
        requires
            chunk_size < usize::MAX,
        ensures
            match r {
                Ok(c) => {
                    &&& overlap < chunk_size
                    &&& c.wf()
                    &&& !c.tainted()
                    &&& c.fed() == Seq::<u8>::empty()
                    &&& c.cursor() == 0
                    &&& c.lookahead() == 0
                    &&& !c.done()
                    &&& !c.spec_stalled()
                    &&& c.spec_chunk_size() == chunk_size as int
                    &&& c.spec_overlap() == overlap as int
                },
                Err(e) => overlap >= chunk_size && e == (ChunkingError::InvalidArguments {
                    chunk_size,
                    overlap,
                }),
            },
    {
        if overlap >= chunk_size {
            return Err(ChunkingError::InvalidArguments { chunk_size, overlap });
        }
        let r = ByteStreamChunker {
            decoder: crate::stream::Utf8Decoder::new(policy),
            buffer: Vec::new(),
            position: 0,
            chunk_size,
            overlap,
            input_done: false,
            stalled: false,
        };
        proof {
            crate::stream::lemma_scan_len_valid(r.decoder.fed());
            assert(r.decoded() =~= Seq::<u8>::empty());
            assert(r.buffer@ =~= r.decoded().subrange(0, r.decoded().len() as int));
        }
        Ok(r)
    }

    /// Whether the caller should push another block (or declare the end of
    /// the input) before pulling the next chunk.
    pub fn needs_input(&self) -> (b: bool)
        requires
            self.wf(),
        ensures
            b == self.spec_needs_input(),
    {
        if self.input_done {
            return false;
        }
        let target: usize = if self.chunk_size > usize::MAX / 5 {
            usize::MAX
        } else {
            5 * self.chunk_size
        };
        self.buffer.len() - self.position < target
    }

    /// Feeds one block of raw input bytes through the decoder into the
    /// working buffer.
    pub fn push(&mut self, block: &Vec<u8>) -> (r: Result<(), ChunkingError>)
        requires
            old(self).wf(),
            !old(self).done(),
        ensures
            final(self).wf(),
            final(self).fed() == old(self).fed() + block@,
            final(self).spec_chunk_size() == old(self).spec_chunk_size(),
            final(self).spec_overlap() == old(self).spec_overlap(),
            final(self).done() == old(self).done(),
            final(self).spec_stalled() == old(self).spec_stalled(),
            old(self).tainted() ==> final(self).tainted(),
            (!old(self).tainted() && crate::stream::clean_prefix(old(self).fed() + block@))
                ==> !final(self).tainted(),
            !final(self).tainted() ==> ({
                &&& r is Ok
                &&& final(self).cursor() == old(self).cursor()
                &&& old(self).decoded().len() <= final(self).decoded().len()
            }),
            match r {
                Ok(u) => true,
                Err(e) => e == ChunkingError::Unknown,
            },
    {
        let ghost d0 = self.decoded();
        match self.decoder.feed(block) {
            Ok(piece) => {
                proof {
                    valid_utf8_concat(self.buffer@, piece@);
                }
                let ghost buf0 = self.buffer@;
                let mut p = piece;
                self.buffer.append(&mut p);
                proof {
                    assert(buf0 =~= self.buffer@.subrange(0, buf0.len() as int));
                    crate::boundaries::lemma_char_boundary_stable(
                        buf0,
                        self.buffer@,
                        self.position as int,
                    );
                    if !self.decoder.tainted() {
                        let d = self.decoder.decoded();
                        crate::stream::lemma_scan_len_valid(self.decoder.fed());
                        crate::stream::lemma_scan_len_valid(old(self).fed());
                        assert(d0 =~= d.subrange(0, d0.len() as int));
                        assert(self.buffer@ =~= d.subrange(
                            d.len() - self.buffer@.len(),
                            d.len() as int,
                        ));
                        crate::boundaries::lemma_char_boundary_stable(d0, d, old(self).base());
                        crate::boundaries::lemma_char_boundary_stable(d0, d, old(self).cursor());
                    }
                }
                Ok(())
            },
            Err(e) => Err(e),
        }
    }

    /// Declares the end of the input: any held-back bytes of an incomplete
    /// final character are dropped.
    pub fn finish(&mut self)
        requires
            old(self).wf(),
        ensures
            final(self).wf(),
            final(self).done(),
            final(self).fed() == old(self).fed(),
            final(self).tainted() == old(self).tainted(),
            final(self).cursor() == old(self).cursor(),
            final(self).lookahead() == old(self).lookahead(),
            final(self).spec_chunk_size() == old(self).spec_chunk_size(),
            final(self).spec_overlap() == old(self).spec_overlap(),
            final(self).spec_stalled() == old(self).spec_stalled(),
    {
        self.input_done = true;
    }

    /// Pulls the next chunk.  The caller tops the buffer up first, so a
    /// pull either yields a chunk, ends the sequence after the end of the
    /// input, or reports that the engine cannot advance.
    #[verifier::rlimit(80)]
    pub fn next_chunk(&mut self) -> (r: Result<Option<Vec<u8>>, ChunkingError>)
        requires
            old(self).wf(),
            !old(self).spec_needs_input(),
        ensures
            final(self).wf(),
            final(self).fed() == old(self).fed(),
            final(self).decoded() == old(self).decoded(),
            final(self).tainted() == old(self).tainted(),
            final(self).done() == old(self).done(),
            final(self).spec_chunk_size() == old(self).spec_chunk_size(),
            final(self).spec_overlap() == old(self).spec_overlap(),
            match r {
                Ok(opt) => match opt {
                    Some(chunk) => !old(self).spec_stalled() && !final(self).spec_stalled()
                        && final(self).lookahead() < old(self).lookahead() && old(self).cursor()
                        < final(self).cursor(),
                    None => final(self).spec_stalled() == old(self).spec_stalled()
                        && final(self).cursor() == old(self).cursor(),
                },
                Err(e) => e == ChunkingError::Unknown && final(self).spec_stalled()
                    && final(self).cursor() == old(self).cursor(),
            },
            !old(self).tainted() ==> ({
                let d = old(self).decoded();
                let c0 = old(self).cursor();
                let cs = old(self).spec_chunk_size();
                let ov = old(self).spec_overlap();
                match r {
                    Ok(opt) => match opt {
                        Some(chunk) => {
                            &&& 0 <= c0 < d.len()
                            &&& chunk@ == d.subrange(c0, span_end(d, c0, cs))
                            &&& c0 < span_end(d, c0, cs) <= d.len()
                            &&& (span_end(d, c0, cs) < d.len() ==> final(self).cursor()
                                == next_cursor(d, c0, cs, ov) && c0 < next_cursor(d, c0, cs, ov)
                                < d.len())
                            &&& (span_end(d, c0, cs) == d.len() ==> final(self).cursor()
                                == d.len())
                            &&& (!old(self).done() ==> c0 + cs < d.len() && span_end(d, c0, cs)
                                < d.len())
                        },
                        None => old(self).done() && c0 >= d.len(),
                    },
                    Err(e) => old(self).spec_stalled() || (c0 < d.len() && span_end(d, c0, cs)
                        < d.len() && next_cursor(d, c0, cs, ov) <= c0),
                }
            }),
    {
        if self.stalled {
            return Err(ChunkingError::Unknown);
        }
        let ghost d = self.decoded();
        proof {
            if !self.tainted() && self.base() < d.len() {
                is_char_boundary_iff_not_is_continuation_byte(d, self.base());
            }
        }

        // Compact: once the cursor is five chunk-sizes past the buffer
        // origin, drop everything before two chunk-sizes behind the cursor,
        // pulled back to a character boundary.
        let target: usize = if self.chunk_size > usize::MAX / 5 {
            usize::MAX
        } else {
            5 * self.chunk_size
        };
        if self.position > target {
            let retain: usize = if self.chunk_size > usize::MAX / 2 {
                usize::MAX
            } else {
                2 * self.chunk_size
            };
            let keep_from: usize = if self.position > retain {
                self.position - retain
            } else {
                0
            };
            let b = find_boundary_back(&self.buffer, keep_from);
            proof {
                lemma_boundary_back_props(self.buffer@, keep_from as int);
                is_char_boundary_start_end_of_seq(self.buffer@);
                lemma_valid_slice(self.buffer@, b as int, self.buffer@.len() as int);
                lemma_valid_slice(self.buffer@, b as int, self.position as int);
                if !self.tainted() {
                    if b < self.buffer@.len() {
                        is_char_boundary_iff_not_is_continuation_byte(
                            self.buffer@,
                            b as int,
                        );
                        assert(self.buffer@[b as int] == d[self.base() + b]);
                        is_char_boundary_iff_not_is_continuation_byte(d, self.base() + b);
                    } else {
                        is_char_boundary_start_end_of_seq(d);
                    }
                }
            }
            let new_buf = copy_range(&self.buffer, b, self.buffer.len());
            let ghost old_buf = self.buffer@;
            self.buffer = new_buf;
            self.position = self.position - b;
            proof {
                assert(self.buffer@ =~= old_buf.subrange(b as int, old_buf.len() as int));
                if !self.tainted() {
                    assert(self.buffer@ =~= d.subrange(self.base(), d.len() as int));
                }
            }
        }

        let ghost w = self.buffer@;
        let ghost base = self.base();
        let ghost pos0 = self.position as int;
        let ghost cs = self.chunk_size as int;
        let ghost ov = self.overlap as int;
        proof {
            if !self.tainted() {
                assert(w =~= d.subrange(base, d.len() as int));
                if base < d.len() {
                    is_char_boundary_iff_not_is_continuation_byte(d, base);
                }
            }
        }
        let step = chunk_indices(&self.buffer, self.chunk_size, self.overlap, &mut self.position);
        match step {
            Ok(opt) => match opt {
                Some(span) => {
                    let (s, e) = span;
                    proof {
                        if !self.tainted() {
                            let c0 = base + pos0;
                            // the window is a suffix of the decoded text, so
                            // the engine's offsets shift by the base
                            if pos0 + cs < w.len() {
                                lemma_boundary_back_shift(d, base, pos0 + cs);
                                lemma_boundary_back_props(d, c0 + cs);
                            }
                            assert(e as int == span_end(w, pos0, cs));
                            assert(base + span_end(w, pos0, cs) == span_end(d, c0, cs));
                            if (e as int) < w.len() {
                                lemma_boundary_back_shift(
                                    d,
                                    base,
                                    pos0 + (e as int - pos0 - ov),
                                );
                                assert(base + next_cursor(w, pos0, cs, ov) == next_cursor(
                                    d,
                                    c0,
                                    cs,
                                    ov,
                                ));
                            }
                            if !self.input_done {
                                assert(w.len() - pos0 >= self.lookahead_target());
                                assert(pos0 + cs < w.len());
                            }
                            // the new cursor is a boundary of the decoded text
                            if (self.position as int) < w.len() {
                                is_char_boundary_iff_not_is_continuation_byte(
                                    w,
                                    self.position as int,
                                );
                                assert(w[self.position as int] == d[base + self.position]);
                                is_char_boundary_iff_not_is_continuation_byte(
                                    d,
                                    base + self.position,
                                );
                            } else {
                                is_char_boundary_start_end_of_seq(d);
                            }
                        }
                    }
                    let chunk = copy_range(&self.buffer, s, e);
                    proof {
                        if !self.tainted() {
                            assert(chunk@ =~= d.subrange(
                                base + s,
                                base + e,
                            ));
                        }
                    }
                    Ok(Some(chunk))
                },
                None => {
                    // the caller topped the buffer up, so an exhausted
                    // buffer means the input has ended
                    if !self.input_done {
                        proof {
                            assert(false);
                        }
                    }
                    Ok(None)
                },
            },
            Err(er) => {
                self.stalled = true;
                proof {
                    if !self.tainted() {
                        let c0 = base + pos0;
                        if pos0 + cs < w.len() {
                            lemma_boundary_back_shift(d, base, pos0 + cs);
                            lemma_boundary_back_props(d, c0 + cs);
                        }
                        assert(base + span_end(w, pos0, cs) == span_end(d, c0, cs));
                        let ew = span_end(w, pos0, cs);
                        if ew - pos0 > ov {
                            lemma_boundary_back_shift(d, base, pos0 + (ew - pos0 - ov));
                            lemma_boundary_back_props(d, c0 + (ew - pos0 - ov));
                            assert(next_cursor(d, c0, cs, ov) == base + next_cursor(
                                w,
                                pos0,
                                cs,
                                ov,
                            ));
                        }
                        assert(next_cursor(w, pos0, cs, ov) <= pos0 || next_cursor(
                            w,
                            pos0,
                            cs,
                            ov,
                        ) >= w.len());
                        if ew - pos0 > ov {
                            lemma_boundary_back_props(w, pos0 + (ew - pos0 - ov));
                            assert(next_cursor(w, pos0, cs, ov) <= ew - ov);
                            assert(next_cursor(w, pos0, cs, ov) <= pos0);
                        }
                        assert(next_cursor(d, c0, cs, ov) <= c0);
                    }
                }
                Err(er)
            },
        }
    }
}

/// Runs the streaming byte chunker over an in-memory buffer, feeding it
/// the input in blocks of `block_size` bytes.  This is the exact decode,
/// buffering and compaction path a file is processed with, and for valid
/// UTF-8 input of any block size its chunks are exactly the spans that
/// whole-string chunking emits.
#[verifier::loop_isolation(false)]
#[verifier::rlimit(80)]
pub fn chunk_stream_by_bytes(
    data: &Vec<u8>,
    block_size: usize,
    chunk_size: usize,
    overlap: usize,
    policy: crate::stream::DecodePolicy,
) -> (r: Result<Vec<Vec<u8>>, ChunkingError>)
    requires
        1 <= block_size,
        chunk_size < usize::MAX,
    ensures
        match r {
            Ok(chunks) => {
                &&& overlap < chunk_size
                &&& (valid_utf8(data@) ==> {
                    let spans = byte_spans(data@, chunk_size as int, overlap as int, 0);
                    &&& !byte_chunking_stalls(data@, chunk_size as int, overlap as int, 0)
                    &&& chunks@.len() == spans.len()
                    &&& forall|i: int|
                        0 <= i < spans.len() ==> (#[trigger] chunks@[i])@ == data@.subrange(
                            spans[i].0,
                            spans[i].1,
                        )
                })
            },
            Err(e) => {
                &&& (overlap >= chunk_size <==> e == (ChunkingError::InvalidArguments {
                    chunk_size,
                    overlap,
                }))
                &&& ((overlap < chunk_size && valid_utf8(data@)) ==> e == ChunkingError::Unknown
                    && byte_chunking_stalls(data@, chunk_size as int, overlap as int, 0))
            },
        },
{
    let ghost t = data@;
    let ghost cs = chunk_size as int;
    let ghost ov = overlap as int;
    let ghost spans0 = byte_spans(t, cs, ov, 0);
    let mut machine = match ByteStreamChunker::new(chunk_size, overlap, policy) {
        Ok(m) => m,
        Err(e) => {
            return Err(e);
        },
    };
    let mut fi: usize = 0;
    let mut out: Vec<Vec<u8>> = Vec::new();
    proof {
        assert(machine.fed() =~= t.subrange(0, 0));
    }
    loop
        invariant
            machine.wf(),
            machine.spec_chunk_size() == cs,
            machine.spec_overlap() == ov,
            fi <= t.len(),
            machine.fed() == t.subrange(0, fi as int),
            machine.done() ==> fi == t.len(),
            !machine.spec_stalled(),
            valid_utf8(t) ==> {
                &&& !machine.tainted()
                &&& out@.len() <= spans0.len()
                &&& byte_spans(t, cs, ov, machine.cursor()) =~= spans0.skip(out@.len() as int)
                &&& byte_chunking_stalls(t, cs, ov, machine.cursor()) == byte_chunking_stalls(
                    t,
                    cs,
                    ov,
                    0,
                )
                &&& forall|i: int|
                    0 <= i < out@.len() ==> (#[trigger] out@[i])@ == t.subrange(
                        spans0[i].0,
                        spans0[i].1,
                    )
            },
        decreases t.len() - fi + (if machine.done() {
            0int
        } else {
            1int
        }), machine.lookahead(),
    {
        proof {
            crate::stream::lemma_scan_len_valid(machine.fed());
            if valid_utf8(t) {
                crate::stream::lemma_valid_scan_full(t);
            }
        }
        if machine.needs_input() {
            if fi < data.len() {
                let end: usize = if data.len() - fi < block_size {
                    data.len()
                } else {
                    fi + block_size
                };
                let block = copy_range(data, fi, end);
                proof {
                    assert(machine.fed() + block@ =~= t.subrange(0, end as int));
                    if valid_utf8(t) {
                        crate::stream::lemma_prefix_clean(t, end as int);
                    }
                }
                match machine.push(&block) {
                    Ok(u) => {},
                    Err(e) => {
                        proof {
                            if valid_utf8(t) {
                                assert(false);
                            }
                        }
                        return Err(e);
                    },
                }
                proof {
                    if valid_utf8(t) {
                        assert(byte_spans(t, cs, ov, machine.cursor()) =~= spans0.skip(
                            out@.len() as int,
                        ));
                    }
                }
                fi = end;
            } else {
                machine.finish();
            }
            continue;
        }
        let ghost d = machine.decoded();
        let ghost c0 = machine.cursor();
        proof {
            if valid_utf8(t) {
                assert(d =~= t.subrange(0, d.len() as int));
                if machine.done() {
                    assert(machine.fed() =~= t);
                    assert(d =~= t);
                }
            }
        }
        match machine.next_chunk() {
            Ok(opt) => match opt {
                Some(chunk) => {
                    proof {
                        if valid_utf8(t) {
                            let e_d = span_end(d, c0, cs);
                            if !machine.done() {
                                crate::boundaries::lemma_boundary_back_stable(d, t, c0 + cs);
                                assert(span_end(t, c0, cs) == e_d);
                                assert(e_d < d.len());
                            }
                            let e_t = span_end(t, c0, cs);
                            assert(e_t == e_d);
                            if e_d < d.len() {
                                lemma_boundary_back_props(d, c0 + cs);
                                crate::boundaries::lemma_boundary_back_stable(
                                    d,
                                    t,
                                    c0 + (e_d - c0 - ov),
                                );
                                assert(next_cursor(t, c0, cs, ov) == next_cursor(d, c0, cs, ov));
                            }
                            assert(chunk@ =~= t.subrange(c0, e_t));
                            // step the span list and the stall equivalence
                            assert(byte_spans(t, cs, ov, c0) =~= spans0.skip(out@.len() as int));
                            if e_t >= t.len() {
                                assert(byte_spans(t, cs, ov, c0) =~= seq![(c0, t.len() as int)]);
                                assert(machine.cursor() == d.len());
                                assert(byte_spans(t, cs, ov, machine.cursor())
                                    =~= Seq::<(int, int)>::empty());
                                assert(!byte_chunking_stalls(t, cs, ov, c0));
                                assert(!byte_chunking_stalls(t, cs, ov, machine.cursor()));
                            } else {
                                let nx = next_cursor(t, c0, cs, ov);
                                assert(machine.cursor() == nx);
                                assert(c0 < nx < t.len());
                                assert(byte_spans(t, cs, ov, c0) =~= seq![(c0, e_t)] + byte_spans(
                                    t,
                                    cs,
                                    ov,
                                    nx,
                                ));
                                assert(byte_chunking_stalls(t, cs, ov, c0)
                                    == byte_chunking_stalls(t, cs, ov, nx));
                            }
                            assert(spans0.skip(out@.len() as int)[0] == spans0[out@.len() as int]);
                            assert(spans0.skip(out@.len() as int).drop_first() =~= spans0.skip(
                                out@.len() + 1int,
                            ));
                            assert(byte_spans(t, cs, ov, machine.cursor()) =~= spans0.skip(
                                out@.len() as int,
                            ).drop_first());
                            assert(byte_spans(t, cs, ov, machine.cursor()) =~= spans0.skip(
                                out@.len() + 1int,
                            ));
                        }
                    }
                    out.push(chunk);
                },
                None => {
                    proof {
                        if valid_utf8(t) {
                            assert(c0 >= t.len());
                            assert(byte_spans(t, cs, ov, c0) =~= Seq::<(int, int)>::empty());
                            assert(out@.len() == spans0.len());
                            assert(!byte_chunking_stalls(t, cs, ov, c0));
                        }
                    }
                    return Ok(out);
                },
            },
            Err(e) => {
                proof {
                    if valid_utf8(t) {
                        let e_d = span_end(d, c0, cs);
                        if !machine.done() {
                            crate::boundaries::lemma_boundary_back_stable(d, t, c0 + cs);
                        }
                        assert(span_end(t, c0, cs) == e_d);
                        if e_d - c0 > ov {
                            crate::boundaries::lemma_boundary_back_stable(
                                d,
                                t,
                                c0 + (e_d - c0 - ov),
                            );
                        }
                        assert(next_cursor(t, c0, cs, ov) == next_cursor(d, c0, cs, ov));
                        assert(span_end(t, c0, cs) < t.len() || machine.done());
                        assert(byte_chunking_stalls(t, cs, ov, c0));
                    }
                }
                return Err(e);
            },
        }
    }
}

/// Splits an in-memory string into overlapping chunks measured in bytes.
/// Fails with `InvalidArguments` whenever the overlap is not smaller than the
/// chunk size; otherwise the returned state object starts at the beginning of
/// the text.
pub fn chunk_string_by_bytes(text: String, chunk_size: usize, overlap: usize) -> (r: Result<
    ByteChunks,
    ChunkingError,
>)
    ensures
        match r {
            Ok(c) => {
                &&& overlap < chunk_size
                &&& c.wf()
                &&& c.text_bytes() == encode_utf8(text@)
                &&& c.cursor() == 0
                &&& c.spec_chunk_size() == chunk_size as int
                &&& c.spec_overlap() == overlap as int
            },
            Err(e) => overlap >= chunk_size && e == (ChunkingError::InvalidArguments {
                chunk_size,
                overlap,
            }),
        },
{
    if overlap >= chunk_size {
        return Err(ChunkingError::InvalidArguments { chunk_size, overlap });
    }
    let bytes = crate::string_to_bytes(text.as_str());
    Ok(ByteChunks { text: bytes, chunk_size, overlap, position: 0 })
}

} // verus!
