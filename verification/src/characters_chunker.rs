//! The character-length strategy: windows are measured in Unicode scalar
//! values.  A table of character start offsets is built for the buffer, so
//! that window boundaries are always character boundaries by construction.

use vstd::prelude::*;
use vstd::utf8::*;

use crate::boundaries::{
    advance_scalars, count_scalars, lemma_advance_scalars_add, lemma_advance_scalars_boundary,
    lemma_advance_scalars_bounds, lemma_advance_scalars_one, lemma_advance_scalars_suffix,
    lemma_count_advance_split, lemma_count_scalars, lemma_count_scalars_nonneg,
    lemma_count_scalars_suffix, lemma_scalars_concat, lemma_valid_slice, scalar_len_at,
};
use crate::bytes_chunker::copy_range;
use crate::ChunkingError;

verus! {

/// All character-strategy windows emitted from the character-index cursor
/// `ci`, as pairs of byte offsets.  A window that reaches the last character
/// is the final one; the cursor steps by `chunk_size - overlap` characters.
pub open spec fn char_spans(t: Seq<u8>, chunk_size: int, overlap: int, ci: int) -> Seq<(int, int)>
    decreases count_scalars(t, 0) - ci,
{
    let n = count_scalars(t, 0);
    if ci < 0 || ci >= n || overlap < 0 || overlap >= chunk_size {
        Seq::empty()
    } else {
        let s = advance_scalars(t, 0, ci);
        if ci + chunk_size >= n {
            seq![(s, t.len() as int)]
        } else {
            seq![(s, advance_scalars(t, 0, ci + chunk_size))] + char_spans(
                t,
                chunk_size,
                overlap,
                ci + (chunk_size - overlap),
            )
        }
    }
}

/// The table invariant: one entry per character of `t`, each entry the byte
/// offset where that character's encoding starts, shifted by `offset`.
pub open spec fn table_ok(t: Seq<u8>, table: Seq<usize>, offset: int) -> bool {
    &&& table.len() == count_scalars(t, 0)
    &&& forall|i: int|
        0 <= i < table.len() ==> (#[trigger] table[i]) as int == offset + advance_scalars(t, 0, i)
}

/// The byte length of the character encoding that starts with `byte`, read
/// off the leading byte's bit pattern.
fn scalar_len_of_lead(byte: u8) -> (l: usize)
    ensures
        1 <= l <= 4,
        forall|t: Seq<u8>, p: int|
            0 <= p < t.len() && t[p] == byte ==> #[trigger] scalar_len_at(t, p) == l as int,
{
    proof {
        assert forall|t: Seq<u8>, p: int| 0 <= p < t.len() && t[p] == byte implies #[trigger]
            scalar_len_at(t, p) == length_of_first_scalar(t.subrange(p, t.len() as int)) by {
            assert(t.subrange(p, t.len() as int)[0] == byte);
        }
    }
    if byte < 0x80 {
        1
    } else if 0xc0 <= byte && byte <= 0xdf {
        2
    } else if 0xe0 <= byte && byte <= 0xef {
        3
    } else {
        4
    }
}

/// Builds the character offset table for `text`: the byte offset of each
/// character's first byte, in text order, each shifted by `offset`.  The
/// streaming variant uses the shift to append a block's table to the table of
/// the buffer it extends.
pub fn build_char_positions(text: &Vec<u8>, offset: usize) -> (r: Vec<usize>)
    requires
        valid_utf8(text@),
        offset + text@.len() <= usize::MAX,
    ensures
        table_ok(text@, r@, offset as int),
{
    let ghost t = text@;
    let mut r: Vec<usize> = Vec::new();
    let mut p: usize = 0;
    proof {
        lemma_count_scalars_nonneg(t, 0);
    }
    while p < text.len()
        invariant
            valid_utf8(t),
            t == text@,
            offset + t.len() <= usize::MAX,
            p <= t.len(),
            is_char_boundary(t, p as int),
            p as int == advance_scalars(t, 0, r@.len() as int),
            r@.len() <= count_scalars(t, 0),
            forall|i: int|
                0 <= i < r@.len() ==> (#[trigger] r@[i]) as int == offset as int + advance_scalars(
                    t,
                    0,
                    i,
                ),
        decreases t.len() - p,
    {
        let ghost k = r@.len() as int;
        proof {
            lemma_count_scalars(t, 0, k);
            lemma_advance_scalars_boundary(t, p as int, 0);
        }
        r.push(offset + p);
        let l = scalar_len_of_lead(text[p]);
        proof {
            // one more step from the current position is one whole character
            lemma_advance_scalars_add(t, 0, k, 1);
            lemma_advance_scalars_one(t, p as int);
            assert(advance_scalars(t, p as int, 1) == p + l);
            lemma_advance_scalars_boundary(t, p as int, 1);
            if k + 1 > count_scalars(t, 0) {
                lemma_count_scalars(t, 0, k + 1);
                assert(false);
            }
        }
        p = p + l;
    }
    proof {
        lemma_count_scalars(t, 0, r@.len() as int);
        if r@.len() < count_scalars(t, 0) {
            assert(false);
        }
    }
    r
}

/// Computes the next chunk's start and end byte offsets under the character
/// strategy and advances both cursors: the character index steps by
/// `chunk_size - overlap`, and the byte cursor follows the table.  Returns
/// `None` once every character has been consumed.
pub fn chunk_indices(
    text: &Vec<u8>,
    char_positions: &Vec<usize>,
    chunk_size: usize,
    overlap: usize,
    current_byte_position: &mut usize,
    current_char_position: &mut usize,
) -> (r: Option<(usize, usize)>)
    requires
        overlap < chunk_size,
        table_ok(text@, char_positions@, 0),
        *old(current_char_position) <= char_positions@.len(),
        *old(current_byte_position) as int == advance_scalars(
            text@,
            0,
            *old(current_char_position) as int,
        ),
    ensures
        ({
            let t = text@;
            let n = char_positions@.len() as int;
            let ci0 = *old(current_char_position) as int;
            let cs = chunk_size as int;
            let ov = overlap as int;
            match r {
                None => ci0 >= n && *final(current_byte_position) == *old(current_byte_position)
                    && *final(current_char_position) == *old(current_char_position),
                Some(span) => {
                    &&& ci0 < n
                    &&& span.0 <= span.1
                    &&& span.1 <= text@.len()
                    &&& span.0 as int == advance_scalars(t, 0, ci0)
                    &&& (ci0 + cs >= n ==> span.1 as int == t.len()
                        && *final(current_char_position) as int == n
                        && *final(current_byte_position) as int == t.len())
                    &&& (ci0 + cs < n ==> span.1 as int == advance_scalars(t, 0, ci0 + cs)
                        && *final(current_char_position) as int == ci0 + (cs - ov)
                        && *final(current_byte_position) as int == advance_scalars(t, 0, ci0 + (cs - ov)))
                },
            }
        }),
{
    let ghost t = text@;
    let text_len = text.len();
    let chars_len = char_positions.len();
    let ci = *current_char_position;

    // Done
    if ci >= chars_len {
        return None;
    }
    let start_byte = char_positions[ci];

    // If the window reaches the last character, we're done after this chunk.
    if chunk_size >= chars_len - ci {
        proof {
            lemma_count_scalars(t, 0, ci as int);
            lemma_advance_scalars_bounds(t, 0, ci as int);
        }
        *current_char_position = chars_len;
        *current_byte_position = text_len;
        return Some((start_byte, text_len));
    }
    let end_byte = char_positions[ci + chunk_size];
    proof {
        lemma_advance_scalars_bounds(t, 0, ci as int);
        lemma_advance_scalars_add(t, 0, ci as int, chunk_size as int);
        lemma_advance_scalars_bounds(t, advance_scalars(t, 0, ci as int), chunk_size as int);
    }

    // Step by `chunk_size - overlap` characters; the table keeps both cursors
    // on character boundaries.
    let next_ci = ci + (chunk_size - overlap);
    *current_char_position = next_ci;
    *current_byte_position = char_positions[next_ci];
    Some((start_byte, end_byte))
}

/// A lazily-evaluated sequence of character-strategy chunks over an
/// in-memory buffer: the text, its character offset table, and the cursors.
pub struct CharChunks {
    text: Vec<u8>,
    char_positions: Vec<usize>,
    chunk_size: usize,
    overlap: usize,
    position: usize,
    char_position: usize,
}

impl CharChunks {
    /// The UTF-8 bytes being chunked.
    pub closed spec fn text_bytes(self) -> Seq<u8> {
        self.text@
    }

    /// The character index where the next chunk starts.
    pub closed spec fn char_cursor(self) -> int {
        self.char_position as int
    }

    /// The configured chunk size, in characters.
    pub closed spec fn spec_chunk_size(self) -> int {
        self.chunk_size as int
    }

    /// The configured overlap, in characters.
    pub closed spec fn spec_overlap(self) -> int {
        self.overlap as int
    }

    /// Validity: the overlap is smaller than the chunk size, the text is
    /// valid UTF-8, the table indexes its characters, and the byte cursor
    /// tracks the character cursor.
    pub closed spec fn wf(self) -> bool {
        &&& self.overlap < self.chunk_size
        &&& valid_utf8(self.text@)
        &&& table_ok(self.text@, self.char_positions@, 0)
        &&& self.char_position <= self.char_positions@.len()
        &&& self.position as int == advance_scalars(self.text@, 0, self.char_position as int)
    }

    /// The spans of the chunks still to be emitted.
    pub open spec fn remaining(self) -> Seq<(int, int)> {
        char_spans(self.text_bytes(), self.spec_chunk_size(), self.spec_overlap(), self.char_cursor())
    }

    /// Pulls the next chunk; `None` once every character has been consumed.
    pub fn next(&mut self) -> (r: Option<String>)
        requires
            old(self).wf(),
        ensures
            final(self).wf(),
            final(self).text_bytes() == old(self).text_bytes(),
            final(self).spec_chunk_size() == old(self).spec_chunk_size(),
            final(self).spec_overlap() == old(self).spec_overlap(),
            match r {
                Some(chunk) => {
                    &&& old(self).remaining().len() > 0
                    &&& chunk@ == decode_utf8(
                        old(self).text_bytes().subrange(
                            old(self).remaining()[0].0,
                            old(self).remaining()[0].1,
                        ),
                    )
                    &&& final(self).remaining() == old(self).remaining().drop_first()
                    &&& old(self).char_cursor() < final(self).char_cursor()
                },
                None => old(self).char_cursor() >= count_scalars(old(self).text_bytes(), 0)
                    && *final(self) == *old(self),
            },
    {
        let ghost t = self.text@;
        let ghost ci0 = self.char_position as int;
        let ghost cs = self.chunk_size as int;
        let ghost ov = self.overlap as int;
        let ghost n = count_scalars(t, 0);
        let step = chunk_indices(
            &self.text,
            &self.char_positions,
            self.chunk_size,
            self.overlap,
            &mut self.position,
            &mut self.char_position,
        );
        match step {
            Some(span) => {
                let (s, e) = span;
                proof {
                    lemma_count_scalars(t, 0, ci0);
                    lemma_count_scalars(t, 0, n);
                    lemma_advance_scalars_boundary(t, 0, ci0);
                    lemma_advance_scalars_bounds(t, 0, ci0);
                    if ci0 + cs >= n {
                        assert(e as int == t.len());
                        is_char_boundary_start_end_of_seq(t);
                        assert(old(self).remaining() =~= seq![(s as int, t.len() as int)]);
                        assert(final(self).remaining() =~= old(self).remaining().drop_first());
                    } else {
                        lemma_advance_scalars_boundary(t, 0, ci0 + cs);
                        lemma_advance_scalars_bounds(t, 0, ci0 + cs);
                        lemma_advance_scalars_add(t, 0, ci0, cs);
                        lemma_advance_scalars_bounds(t, advance_scalars(t, 0, ci0), cs);
                        lemma_count_scalars(t, 0, ci0 + cs);
                        assert(final(self).remaining() == old(self).remaining().drop_first()) by {
                            assert(old(self).remaining() =~= seq![(s as int, e as int)]
                                + final(self).remaining());
                        }
                    }
                    assert(s <= e <= t.len());
                    lemma_valid_slice(t, s as int, e as int);
                }
                let chunk_bytes = copy_range(&self.text, s, e);
                Some(crate::bytes_to_string(chunk_bytes))
            },
            None => None,
        }
    }

    /// Pulls every remaining chunk, in order.
    #[verifier::loop_isolation(false)]
    pub fn all(&mut self) -> (chunks: Vec<String>)
        requires
            old(self).wf(),
        ensures
            final(self).wf(),
            final(self).text_bytes() == old(self).text_bytes(),
            ({
                let t = old(self).text_bytes();
                let spans = old(self).remaining();
                &&& chunks@.len() == spans.len()
                &&& forall|i: int|
                    0 <= i < spans.len() ==> (#[trigger] chunks@[i])@ == decode_utf8(
                        t.subrange(spans[i].0, spans[i].1),
                    )
            }),
    {
        let ghost t = old(self).text_bytes();
        let ghost spans0 = old(self).remaining();
        let mut out: Vec<String> = Vec::new();
        loop
            invariant
                self.wf(),
                self.text_bytes() == t,
                self.spec_chunk_size() == old(self).spec_chunk_size(),
                self.spec_overlap() == old(self).spec_overlap(),
                out@.len() <= spans0.len(),
                self.remaining() =~= spans0.skip(out@.len() as int),
                forall|i: int|
                    0 <= i < out@.len() ==> (#[trigger] out@[i])@ == decode_utf8(
                        t.subrange(spans0[i].0, spans0[i].1),
                    ),
            decreases count_scalars(t, 0) - self.char_cursor(),
        {
            let ghost rem = self.remaining();
            let r = self.next();
            match r {
                Some(chunk) => {
                    proof {
                        assert(rem[0] == spans0[out@.len() as int]);
                        assert(self.remaining() =~= spans0.skip(out@.len() + 1int));
                    }
                    out.push(chunk);
                },
                None => {
                    proof {
                        assert(rem =~= Seq::<(int, int)>::empty());
                        assert(out@.len() == spans0.len());
                    }
                    return out;
                },
            }
        }
    }
}

/// Every chunk the character strategy emits starts and ends on a character
/// boundary of the text and is itself valid UTF-8.
pub proof fn lemma_char_chunks_valid(t: Seq<u8>, chunk_size: int, overlap: int, ci: int)
    requires
        valid_utf8(t),
        0 <= overlap < chunk_size,
        0 <= ci,
    ensures
        forall|i: int|
            0 <= i < char_spans(t, chunk_size, overlap, ci).len() ==> {
                let span = #[trigger] char_spans(t, chunk_size, overlap, ci)[i];
                &&& is_char_boundary(t, span.0)
                &&& is_char_boundary(t, span.1)
                &&& 0 <= span.0 < span.1 <= t.len()
                &&& valid_utf8(t.subrange(span.0, span.1))
            },
    decreases count_scalars(t, 0) - ci,
{
    broadcast use is_char_boundary_start_end_of_seq;

    let n = count_scalars(t, 0);
    if ci >= n {
    } else {
        let s = advance_scalars(t, 0, ci);
        lemma_count_scalars(t, 0, ci);
        lemma_advance_scalars_boundary(t, 0, ci);
        lemma_advance_scalars_bounds(t, 0, ci);
        let spans = char_spans(t, chunk_size, overlap, ci);
        if ci + chunk_size >= n {
            lemma_valid_slice(t, s, t.len() as int);
        } else {
            let e = advance_scalars(t, 0, ci + chunk_size);
            lemma_advance_scalars_boundary(t, 0, ci + chunk_size);
            lemma_advance_scalars_bounds(t, 0, ci + chunk_size);
            lemma_advance_scalars_add(t, 0, ci, chunk_size);
            lemma_advance_scalars_bounds(t, s, chunk_size);
            lemma_count_scalars(t, 0, ci + chunk_size);
            lemma_valid_slice(t, s, e);
            lemma_char_chunks_valid(t, chunk_size, overlap, ci + (chunk_size - overlap));
            let tail = char_spans(t, chunk_size, overlap, ci + (chunk_size - overlap));
            assert forall|i: int| 0 <= i < spans.len() implies {
                let span = #[trigger] spans[i];
                &&& is_char_boundary(t, span.0)
                &&& is_char_boundary(t, span.1)
                &&& 0 <= span.0 < span.1 <= t.len()
                &&& valid_utf8(t.subrange(span.0, span.1))
            } by {
                if i > 0 {
                    assert(spans[i] == tail[i - 1]);
                }
            }
        }
    }
}

/// Coverage: the chunks start at the cursor's byte offset, the last one ends
/// at the end of the text, consecutive chunks leave no gap between them, and
/// each chunk's end lies exactly `overlap` characters past the next chunk's
/// start: consecutive chunks share exactly `overlap` characters.
pub proof fn lemma_char_chunks_cover(t: Seq<u8>, chunk_size: int, overlap: int, ci: int)
    requires
        valid_utf8(t),
        0 <= overlap < chunk_size,
        0 <= ci < count_scalars(t, 0),
    ensures
        ({
            let spans = char_spans(t, chunk_size, overlap, ci);
            &&& spans.len() > 0
            &&& spans[0].0 == advance_scalars(t, 0, ci)
            &&& spans.last().1 == t.len()
            &&& forall|i: int|
                0 <= i < spans.len() - 1 ==> (#[trigger] spans[i + 1]).0 <= spans[i].1 && spans[i].1
                    == advance_scalars(t, spans[i + 1].0, overlap)
        }),
    decreases count_scalars(t, 0) - ci,
{
    let n = count_scalars(t, 0);
    let spans = char_spans(t, chunk_size, overlap, ci);
    if ci + chunk_size >= n {
    } else {
        let ci2 = ci + (chunk_size - overlap);
        let e = advance_scalars(t, 0, ci + chunk_size);
        lemma_char_chunks_cover(t, chunk_size, overlap, ci2);
        let tail = char_spans(t, chunk_size, overlap, ci2);
        assert(spans[0].1 == e);
        assert(spans[1] == tail[0]);
        assert(spans[1].0 == advance_scalars(t, 0, ci2));
        lemma_advance_scalars_add(t, 0, ci2, overlap);
        lemma_advance_scalars_bounds(t, 0, ci2);
        lemma_advance_scalars_bounds(t, advance_scalars(t, 0, ci2), overlap);
        assert forall|i: int|
            0 <= i < spans.len() - 1 implies (#[trigger] spans[i + 1]).0 <= spans[i].1 && spans[i].1
            == advance_scalars(t, spans[i + 1].0, overlap) by {
            if i == 0 {
                assert(advance_scalars(t, advance_scalars(t, 0, ci2), overlap) == e);
            } else {
                assert(spans[i] == tail[i - 1]);
                assert(spans[i + 1] == tail[i]);
                assert(tail[(i - 1) + 1].0 <= tail[i - 1].1 && tail[i - 1].1 == advance_scalars(
                    t,
                    tail[(i - 1) + 1].0,
                    overlap,
                ));
            }
        }
    }
}

/// Reconstruction: every chunk but the last covers exactly `chunk_size`
/// characters from its start, and the next chunk starts exactly
/// `chunk_size - overlap` characters in: dropping the last `overlap`
/// characters of every chunk but the last leaves the piece up to the next
/// chunk's start, and those pieces followed by the whole last chunk tile the
/// text from the cursor onward.
pub proof fn lemma_char_reconstruction(t: Seq<u8>, chunk_size: int, overlap: int, ci: int)
    requires
        valid_utf8(t),
        0 <= overlap < chunk_size,
        0 <= ci < count_scalars(t, 0),
    ensures
        crate::boundaries::rebuild(t, char_spans(t, chunk_size, overlap, ci)) == t.subrange(
            advance_scalars(t, 0, ci),
            t.len() as int,
        ),
        forall|i: int|
            0 <= i < char_spans(t, chunk_size, overlap, ci).len() - 1 ==> {
                let span = #[trigger] char_spans(t, chunk_size, overlap, ci)[i];
                let next = char_spans(t, chunk_size, overlap, ci)[i + 1];
                next.0 == advance_scalars(t, span.0, chunk_size - overlap) && span.1
                    == advance_scalars(t, span.0, chunk_size)
            },
    decreases count_scalars(t, 0) - ci,
{
    let n = count_scalars(t, 0);
    let spans = char_spans(t, chunk_size, overlap, ci);
    let s = advance_scalars(t, 0, ci);
    lemma_count_scalars(t, 0, ci);
    lemma_advance_scalars_bounds(t, 0, ci);
    if ci + chunk_size >= n {
        assert(spans =~= seq![(s, t.len() as int)]);
        assert(crate::boundaries::rebuild(t, spans) == t.subrange(s, t.len() as int));
    } else {
        let ci2 = ci + (chunk_size - overlap);
        let s2 = advance_scalars(t, 0, ci2);
        let e = advance_scalars(t, 0, ci + chunk_size);
        lemma_advance_scalars_add(t, 0, ci, chunk_size - overlap);
        lemma_advance_scalars_add(t, 0, ci, chunk_size);
        lemma_advance_scalars_bounds(t, 0, ci2);
        lemma_advance_scalars_bounds(t, s, chunk_size - overlap);
        lemma_char_reconstruction(t, chunk_size, overlap, ci2);
        let tail = char_spans(t, chunk_size, overlap, ci2);
        lemma_char_chunks_cover(t, chunk_size, overlap, ci2);
        assert(tail[0].0 == s2);
        assert(spans.drop_first() =~= tail);
        assert(crate::boundaries::rebuild(t, spans) == t.subrange(s, s2)
            + crate::boundaries::rebuild(t, tail));
        assert(t.subrange(s, s2) + t.subrange(s2, t.len() as int) =~= t.subrange(
            s,
            t.len() as int,
        ));
        assert forall|i: int| 0 <= i < spans.len() - 1 implies {
            let span = #[trigger] spans[i];
            let next = spans[i + 1];
            next.0 == advance_scalars(t, span.0, chunk_size - overlap) && span.1
                == advance_scalars(t, span.0, chunk_size)
        } by {
            if i == 0 {
                assert(spans[1] == tail[0]);
            } else {
                assert(spans[i] == tail[i - 1]);
                assert(spans[i + 1] == tail[i]);
                assert({
                    let span = tail[i - 1];
                    let next = tail[(i - 1) + 1];
                    next.0 == advance_scalars(t, span.0, chunk_size - overlap) && span.1
                        == advance_scalars(t, span.0, chunk_size)
                });
            }
        }
    }
}

/// On ASCII text one step is one byte.
proof fn lemma_ascii_advance(t: Seq<u8>, p: int, k: int)
    requires
        forall|i: int| 0 <= i < t.len() ==> (#[trigger] t[i]) < 0x80,
        0 <= p <= t.len(),
        0 <= k,
    ensures
        advance_scalars(t, p, k) == (if p + k <= t.len() {
            p + k
        } else {
            t.len() as int
        }),
    decreases k,
{
    if k == 0 || p >= t.len() {
    } else {
        assert(t.subrange(p, t.len() as int)[0] == t[p]);
        assert(scalar_len_at(t, p) == 1);
        lemma_ascii_advance(t, p + 1, k - 1);
    }
}

/// On ASCII text every byte is one character.
proof fn lemma_ascii_count(t: Seq<u8>, p: int)
    requires
        forall|i: int| 0 <= i < t.len() ==> (#[trigger] t[i]) < 0x80,
        0 <= p <= t.len(),
    ensures
        count_scalars(t, p) == t.len() - p,
    decreases t.len() - p,
{
    if p >= t.len() {
    } else {
        assert(t.subrange(p, t.len() as int)[0] == t[p]);
        assert(scalar_len_at(t, p) == 1);
        lemma_ascii_count(t, p + 1);
    }
}

/// On pure ASCII text the byte strategy and the character strategy emit
/// exactly the same windows: one byte is one character, every position is a
/// character boundary, and no window end is ever pulled back.
pub proof fn lemma_ascii_strategies_agree(t: Seq<u8>, chunk_size: int, overlap: int, pos: int)
    requires
        forall|i: int| 0 <= i < t.len() ==> (#[trigger] t[i]) < 0x80,
        0 <= overlap < chunk_size,
        0 <= pos <= t.len(),
    ensures
        crate::bytes_chunker::byte_spans(t, chunk_size, overlap, pos) == char_spans(
            t,
            chunk_size,
            overlap,
            pos,
        ),
    decreases t.len() - pos,
{
    let n = count_scalars(t, 0);
    lemma_ascii_count(t, 0);
    let bspans = crate::bytes_chunker::byte_spans(t, chunk_size, overlap, pos);
    let cspans = char_spans(t, chunk_size, overlap, pos);
    if pos >= t.len() {
        assert(bspans =~= cspans);
    } else {
        lemma_ascii_advance(t, 0, pos);
        assert(advance_scalars(t, 0, pos) == pos);
        let e = crate::bytes_chunker::span_end(t, pos, chunk_size);
        if pos + chunk_size >= t.len() {
            assert(e == t.len() as int);
            assert(bspans =~= seq![(pos, t.len() as int)]);
            assert(cspans =~= seq![(pos, t.len() as int)]);
        } else {
            assert(!is_continuation_byte(t[pos + chunk_size]));
            assert(e == pos + chunk_size);
            lemma_ascii_advance(t, 0, pos + chunk_size);
            let nx = crate::bytes_chunker::next_cursor(t, pos, chunk_size, overlap);
            assert(!is_continuation_byte(t[pos + chunk_size - overlap]));
            assert(nx == pos + chunk_size - overlap);
            lemma_ascii_strategies_agree(t, chunk_size, overlap, nx);
            assert(bspans =~= seq![(pos, e)] + crate::bytes_chunker::byte_spans(
                t,
                chunk_size,
                overlap,
                nx,
            ));
            assert(cspans =~= seq![(pos, e)] + char_spans(t, chunk_size, overlap, nx));
            assert(bspans =~= cspans);
        }
    }
}

/// Empty input yields no chunks under the character strategy.
pub proof fn lemma_char_empty_input(chunk_size: int, overlap: int)
    ensures
        char_spans(Seq::<u8>::empty(), chunk_size, overlap, 0) == Seq::<(int, int)>::empty(),
{
    assert(char_spans(Seq::<u8>::empty(), chunk_size, overlap, 0) =~= Seq::<(int, int)>::empty());
}

/// Rebuilds the tail of a character offset table against a new buffer
/// origin: entry `from + i` of the old table, shifted down by `delta`.
fn rebase_positions(table: &Vec<usize>, from: usize, delta: usize) -> (r: Vec<usize>)
    requires
        from <= table@.len(),
        forall|i: int| from <= i < table@.len() ==> (#[trigger] table@[i]) >= delta,
    ensures
        r@.len() == table@.len() - from,
        forall|i: int|
            0 <= i < r@.len() ==> (#[trigger] r@[i]) as int == table@[from + i] - delta,
{
    let mut r: Vec<usize> = Vec::new();
    let mut i = from;
    while i < table.len()
        invariant
            from <= i <= table@.len(),
            forall|j: int| from <= j < table@.len() ==> (#[trigger] table@[j]) >= delta,
            r@.len() == i - from,
            forall|j: int|
                0 <= j < r@.len() ==> (#[trigger] r@[j]) as int == table@[from + j] - delta,
        decreases table@.len() - i,
    {
        r.push(table[i] - delta);
        i = i + 1;
    }
    r
}

/// Streams character-strategy chunks over input that arrives in blocks.
/// The working buffer keeps a bounded window of the decoded text together
/// with its character offset table; both are compacted in lockstep once the
/// cursor is far enough past the buffer origin.
pub struct CharStreamChunker {
    decoder: crate::stream::Utf8Decoder,
    buffer: Vec<u8>,
    char_positions: Vec<usize>,
    position: usize,
    char_position: usize,
    chunk_size: usize,
    overlap: usize,
    input_done: bool,
}

impl CharStreamChunker {
    /// All raw bytes pushed so far.
    pub closed spec fn fed(self) -> Seq<u8> {
        self.decoder.fed()
    }

    /// The prefix of the fed bytes decoded so far, as whole characters.
    pub closed spec fn decoded(self) -> Seq<u8> {
        self.decoder.decoded()
    }

    /// Whether the decoder departed from plain hold-back decoding.
    pub closed spec fn tainted(self) -> bool {
        self.decoder.tainted()
    }

    /// The byte offset into the decoded text where the next chunk starts.
    pub closed spec fn cursor(self) -> int {
        self.decoded().len() - self.buffer@.len() + self.position
    }

    /// The character index into the decoded text where the next chunk
    /// starts.
    pub closed spec fn char_cursor(self) -> int {
        count_scalars(self.decoded(), 0) - count_scalars(self.decoded(), self.cursor())
    }

    /// The configured chunk size, in characters.
    pub closed spec fn spec_chunk_size(self) -> int {
        self.chunk_size as int
    }

    /// The configured overlap, in characters.
    pub closed spec fn spec_overlap(self) -> int {
        self.overlap as int
    }

    /// Whether the end of the input has been declared.
    pub closed spec fn done(self) -> bool {
        self.input_done
    }

    /// How many buffered characters lie past the cursor.
    pub closed spec fn lookahead(self) -> int {
        self.char_positions@.len() - self.char_position
    }

    spec fn base(self) -> int {
        self.decoded().len() - self.buffer@.len()
    }

    spec fn lookahead_target(self) -> int {
        if 5 * (self.chunk_size as int) > usize::MAX as int {
            usize::MAX as int
        } else {
            5 * (self.chunk_size as int)
        }
    }

    /// Validity: the buffer is a suffix window of the decoded text, the
    /// table indexes its characters, and the cursors track each other.
    pub closed spec fn wf(self) -> bool {
        &&& self.overlap < self.chunk_size
        &&& self.chunk_size < usize::MAX
        &&& self.decoder.wf()
        &&& valid_utf8(self.buffer@)
        &&& table_ok(self.buffer@, self.char_positions@, 0)
        &&& self.char_position <= self.char_positions@.len()
        &&& self.position as int == advance_scalars(self.buffer@, 0, self.char_position as int)
        &&& (!self.tainted() ==> {
            let d = self.decoded();
            &&& 0 <= self.base() <= d.len()
            &&& self.buffer@ == d.subrange(self.base(), d.len() as int)
            &&& valid_utf8(d)
            &&& is_char_boundary(d, self.base())
        })
    }

    /// True while more input could change what the next pull returns.
    pub open spec fn spec_needs_input(self) -> bool {
        !self.done() && self.lookahead() < self.spec_lookahead_target()
    }

    /// The lookahead the machine tops up to: five chunk-sizes of
    /// characters, capped at the largest count a machine address can hold.
    pub closed spec fn spec_lookahead_target(self) -> int {
        self.lookahead_target()
    }

    /// Checked construction; the chunk size must also leave room for the
    /// lookahead arithmetic of the machine.
    pub fn new(chunk_size: usize, overlap: usize, policy: crate::stream::DecodePolicy) -> (r:
        Result<Self, ChunkingError>)
        requires
            chunk_size < usize::MAX,
        ensures
            match r {
                Ok(c) => {
                    &&& overlap < chunk_size
                    &&& c.wf()
                    &&& !c.tainted()
                    &&& c.fed() == Seq::<u8>::empty()
                    &&& c.char_cursor() == 0
                    &&& c.cursor() == 0
                    &&& c.lookahead() == 0
                    &&& !c.done()
                    &&& c.spec_chunk_size() == chunk_size as int
                    &&& c.spec_overlap() == overlap as int
                },
                Err(e) => overlap >= chunk_size && e == (ChunkingError::InvalidArguments {
                    chunk_size,
                    overlap,
                }),
            },
    {
        if overlap >= chunk_size {
            return Err(ChunkingError::InvalidArguments { chunk_size, overlap });
        }
        let r = CharStreamChunker {
            decoder: crate::stream::Utf8Decoder::new(policy),
            buffer: Vec::new(),
            char_positions: Vec::new(),
            position: 0,
            char_position: 0,
            chunk_size,
            overlap,
            input_done: false,
        };
        proof {
            crate::stream::lemma_scan_len_valid(r.decoder.fed());
            assert(r.decoded() =~= Seq::<u8>::empty());
            assert(r.buffer@ =~= r.decoded().subrange(0, r.decoded().len() as int));
        }
        Ok(r)
    }

    /// Whether the caller should push another block (or declare the end of
    /// the input) before pulling the next chunk.
    pub fn needs_input(&self) -> (b: bool)
        requires
            self.wf(),
        ensures
            b == self.spec_needs_input(),
    {
        if self.input_done {
            return false;
        }
        let target: usize = if self.chunk_size > usize::MAX / 5 {
            usize::MAX
        } else {
            5 * self.chunk_size
        };
        self.char_positions.len() - self.char_position < target
    }

    /// Feeds one block of raw input bytes through the decoder into the
    /// working buffer, extending the character offset table by the newly
    /// decoded characters.
    pub fn push(&mut self, block: &Vec<u8>) -> (r: Result<(), ChunkingError>)
        requires
            old(self).wf(),
            !old(self).done(),
        ensures
            final(self).wf(),
            final(self).fed() == old(self).fed() + block@,
            final(self).spec_chunk_size() == old(self).spec_chunk_size(),
            final(self).spec_overlap() == old(self).spec_overlap(),
            final(self).done() == old(self).done(),
            old(self).tainted() ==> final(self).tainted(),
            (!old(self).tainted() && crate::stream::clean_prefix(old(self).fed() + block@))
                ==> !final(self).tainted(),
            !final(self).tainted() ==> ({
                &&& r is Ok
                &&& final(self).cursor() == old(self).cursor()
                &&& final(self).char_cursor() == old(self).char_cursor()
                &&& old(self).decoded().len() <= final(self).decoded().len()
            }),
            match r {
                Ok(u) => true,
                Err(e) => e == ChunkingError::Unknown,
            },
    {
        let ghost d0 = self.decoded();
        match self.decoder.feed(block) {
            Ok(piece) => {
                let off = self.buffer.len();
                let piece_copy = copy_range(&piece, 0, piece.len());
                proof {
                    assert(piece_copy@ =~= piece@);
                    valid_utf8_concat(self.buffer@, piece@);
                }
                let ghost buf0 = self.buffer@;
                let mut p = piece;
                self.buffer.append(&mut p);
                let total = self.buffer.len();
                assert(off + piece_copy@.len() == total as int);
                let mut cp = build_char_positions(&piece_copy, off);
                let ghost old_table = self.char_positions@;
                let ghost cpv = cp@;
                let ghost n0 = old_table.len() as int;
                proof {
                    assert(self.buffer@ =~= buf0 + piece_copy@);
                    lemma_scalars_concat(buf0, piece_copy@, 0);
                    lemma_count_scalars_nonneg(piece_copy@, 0);
                    lemma_count_scalars_nonneg(buf0, 0);
                    assert forall|i: int| 0 <= i < n0 implies (#[trigger] old_table[i]) as int
                        == advance_scalars(self.buffer@, 0, i) by {
                        lemma_scalars_concat(buf0, piece_copy@, i);
                    }
                    assert forall|i: int| 0 <= i < cpv.len() implies (#[trigger] cpv[i]) as int
                        == advance_scalars(self.buffer@, 0, n0 + i) by {
                        lemma_scalars_concat(buf0, piece_copy@, n0 + i);
                    }
                }
                self.char_positions.append(&mut cp);
                proof {
                    assert forall|j: int| 0 <= j < self.char_positions@.len() implies (
                    #[trigger] self.char_positions@[j]) as int == advance_scalars(
                        self.buffer@,
                        0,
                        j,
                    ) by {
                        if j < n0 {
                            assert(self.char_positions@[j] == old_table[j]);
                        } else {
                            assert(self.char_positions@[j] == cpv[j - n0]);
                        }
                    }
                    // the cursors keep naming the same characters
                    lemma_scalars_concat(buf0, piece_copy@, self.char_position as int);
                    if !self.decoder.tainted() {
                        let d = self.decoder.decoded();
                        crate::stream::lemma_scan_len_valid(self.decoder.fed());
                        crate::stream::lemma_scan_len_valid(old(self).fed());
                        assert(d0 =~= d.subrange(0, d0.len() as int));
                        assert(self.buffer@ =~= d.subrange(
                            d.len() - self.buffer@.len(),
                            d.len() as int,
                        ));
                        crate::boundaries::lemma_char_boundary_stable(d0, d, old(self).base());
                        // the character cursor is unchanged: the window grew
                        // only past the cursor
                        lemma_advance_scalars_boundary(buf0, 0, old(self).char_position as int);
                        lemma_advance_scalars_bounds(buf0, 0, old(self).char_position as int);
                        if (old(self).position as int) < buf0.len() {
                            is_char_boundary_iff_not_is_continuation_byte(
                                buf0,
                                old(self).position as int,
                            );
                            assert(buf0[old(self).position as int] == d0[old(self).cursor()]);
                            is_char_boundary_iff_not_is_continuation_byte(
                                d0,
                                old(self).cursor(),
                            );
                        } else {
                            is_char_boundary_start_end_of_seq(d0);
                        }
                        lemma_char_cursor_unchanged(d0, d, old(self).cursor());
                    }
                }
                Ok(())
            },
            Err(e) => Err(e),
        }
    }

    /// Declares the end of the input: any held-back bytes of an incomplete
    /// final character are dropped.
    pub fn finish(&mut self)
        requires
            old(self).wf(),
        ensures
            final(self).wf(),
            final(self).done(),
            final(self).fed() == old(self).fed(),
            final(self).tainted() == old(self).tainted(),
            final(self).cursor() == old(self).cursor(),
            final(self).char_cursor() == old(self).char_cursor(),
            final(self).lookahead() == old(self).lookahead(),
            final(self).spec_chunk_size() == old(self).spec_chunk_size(),
            final(self).spec_overlap() == old(self).spec_overlap(),
    {
        self.input_done = true;
    }

    /// Pulls the next chunk.  The caller tops the buffer up first, so a
    /// pull either yields a chunk or ends the sequence after the end of the
    /// input; the character strategy always advances, so no error arises.
    #[verifier::rlimit(100)]
    pub fn next_chunk(&mut self) -> (r: Option<Vec<u8>>)
        requires
            old(self).wf(),
            !old(self).spec_needs_input(),
        ensures
            final(self).wf(),
            final(self).fed() == old(self).fed(),
            final(self).decoded() == old(self).decoded(),
            final(self).tainted() == old(self).tainted(),
            final(self).done() == old(self).done(),
            final(self).spec_chunk_size() == old(self).spec_chunk_size(),
            final(self).spec_overlap() == old(self).spec_overlap(),
            match r {
                Some(chunk) => final(self).lookahead() < old(self).lookahead(),
                None => final(self).char_cursor() == old(self).char_cursor(),
            },
            !old(self).tainted() ==> ({
                let d = old(self).decoded();
                let ci = old(self).char_cursor();
                let cs = old(self).spec_chunk_size();
                let ov = old(self).spec_overlap();
                let n = count_scalars(d, 0);
                match r {
                    Some(chunk) => {
                        &&& 0 <= ci < n
                        &&& old(self).cursor() == advance_scalars(d, 0, ci)
                        &&& (ci + cs >= n ==> chunk@ == d.subrange(
                            advance_scalars(d, 0, ci),
                            d.len() as int,
                        ) && final(self).char_cursor() == n && final(self).cursor() == d.len())
                        &&& (ci + cs < n ==> chunk@ == d.subrange(
                            advance_scalars(d, 0, ci),
                            advance_scalars(d, 0, ci + cs),
                        ) && final(self).char_cursor() == ci + (cs - ov) && final(self).cursor()
                            == advance_scalars(d, 0, ci + (cs - ov)))
                        &&& (!old(self).done() ==> ci + cs < n)
                    },
                    None => old(self).done() && ci >= n,
                }
            }),
    {
        let ghost d = self.decoded();

        // Compact: once the cursor is five chunk-sizes of characters past
        // the buffer origin, drop everything before two chunk-sizes of
        // characters behind it, rebasing the offset table.
        let target: usize = if self.chunk_size > usize::MAX / 5 {
            usize::MAX
        } else {
            5 * self.chunk_size
        };
        if self.char_position > target {
            let retain: usize = if self.chunk_size > usize::MAX / 2 {
                usize::MAX
            } else {
                2 * self.chunk_size
            };
            let keep_chars: usize = if self.char_position > retain {
                self.char_position - retain
            } else {
                0
            };
            let ghost old_w = self.buffer@;
            let ghost old_table = self.char_positions@;
            let ghost kc = keep_chars as int;
            proof {
                assert forall|j: int| kc <= j < old_table.len() implies (#[trigger] old_table[j])
                    >= old_table[kc] by {
                    lemma_advance_scalars_add(old_w, 0, kc, j - kc);
                    lemma_advance_scalars_bounds(old_w, 0, kc);
                    lemma_advance_scalars_bounds(old_w, advance_scalars(old_w, 0, kc), j - kc);
                }
                lemma_advance_scalars_boundary(old_w, 0, kc);
                lemma_advance_scalars_bounds(old_w, 0, kc);
                lemma_count_scalars(old_w, 0, kc);
                lemma_advance_scalars_add(old_w, 0, kc, self.char_position - kc);
                lemma_advance_scalars_bounds(
                    old_w,
                    advance_scalars(old_w, 0, kc),
                    self.char_position - kc,
                );
            }
            let keep_bytes = self.char_positions[keep_chars];
            let new_buf = copy_range(&self.buffer, keep_bytes, self.buffer.len());
            let new_table = rebase_positions(&self.char_positions, keep_chars, keep_bytes);
            self.buffer = new_buf;
            self.char_positions = new_table;
            self.position = self.position - keep_bytes;
            self.char_position = self.char_position - keep_chars;
            let ghost kb = keep_bytes as int;
            proof {
                assert(self.buffer@ =~= old_w.subrange(kb, old_w.len() as int));
                valid_utf8_split(old_w, kb);
                lemma_count_scalars_suffix(old_w, kb, 0);
                lemma_count_advance_split(old_w, 0, kc);
                assert(count_scalars(self.buffer@, 0) == count_scalars(old_w, 0) - kc);
                assert forall|j: int| 0 <= j < self.char_positions@.len() implies (
                #[trigger] self.char_positions@[j]) as int == advance_scalars(
                    self.buffer@,
                    0,
                    j,
                ) by {
                    lemma_advance_scalars_add(old_w, 0, kc, j);
                    lemma_advance_scalars_suffix(old_w, kb, 0, j);
                }
                lemma_advance_scalars_add(old_w, 0, kc, self.char_position as int);
                lemma_advance_scalars_suffix(old_w, kb, 0, self.char_position as int);
                if !self.tainted() {
                    if kb < old_w.len() {
                        is_char_boundary_iff_not_is_continuation_byte(old_w, kb);
                        assert(old_w[kb] == d[d.len() - old_w.len() + kb]);
                        is_char_boundary_iff_not_is_continuation_byte(
                            d,
                            d.len() - old_w.len() + kb,
                        );
                    } else {
                        is_char_boundary_start_end_of_seq(d);
                    }
                    assert(self.buffer@ =~= d.subrange(self.base(), d.len() as int));
                }
            }
        }

        let ghost w = self.buffer@;
        let ghost base = self.base();
        let ghost ciw = self.char_position as int;
        let ghost nw = self.char_positions@.len() as int;
        let ghost cs = self.chunk_size as int;
        let ghost ov = self.overlap as int;
        let ghost cursor0 = self.cursor();
        proof {
            lemma_count_scalars_nonneg(d, 0);
            if !self.tainted() {
                assert(w =~= d.subrange(base, d.len() as int));
                // the window's character data maps onto the decoded text
                lemma_count_scalars_suffix(d, base, 0);
                lemma_count_scalars_suffix(d, base, self.position as int);
                lemma_count_advance_split(w, 0, ciw);
                crate::boundaries::lemma_advance_to_position(d, base);
                lemma_advance_scalars_bounds(w, 0, ciw);
                if (self.position as int) < w.len() {
                    lemma_advance_scalars_boundary(w, 0, ciw);
                    is_char_boundary_iff_not_is_continuation_byte(w, self.position as int);
                    assert(w[self.position as int] == d[cursor0]);
                    is_char_boundary_iff_not_is_continuation_byte(d, cursor0);
                } else {
                    is_char_boundary_start_end_of_seq(d);
                }
                crate::boundaries::lemma_advance_to_position(d, cursor0);
            }
        }
        let ghost ci = self.char_cursor();
        let step = chunk_indices(
            &self.buffer,
            &self.char_positions,
            self.chunk_size,
            self.overlap,
            &mut self.position,
            &mut self.char_position,
        );
        match step {
            Some(span) => {
                let (s, e) = span;
                proof {
                    if ciw + cs >= nw {
                        lemma_count_scalars(w, 0, nw);
                    }
                    if !self.tainted() {
                        // global indices: the window starts `base_chars`
                        // characters in
                        let base_chars = count_scalars(d, 0) - count_scalars(d, base);
                        assert(nw == count_scalars(d, base));
                        assert(ci == base_chars + ciw);
                        assert(count_scalars(d, 0) == base_chars + nw);
                        assert(advance_scalars(d, 0, base_chars) == base);
                        // stepping from the start of the decoded text through
                        // the window start reaches the same offsets
                        assert forall|k: int| 0 <= k <= nw implies advance_scalars(
                            d,
                            0,
                            base_chars + k,
                        ) == base + advance_scalars(w, 0, k) by {
                            lemma_advance_scalars_add(d, 0, base_chars, k);
                            lemma_advance_scalars_suffix(d, base, 0, k);
                        }
                        assert(cursor0 == advance_scalars(d, 0, ci));
                        if ciw + cs >= nw {
                            assert(ci + cs >= count_scalars(d, 0));
                            assert(base + w.len() == d.len());
                            lemma_count_scalars(w, 0, nw);
                            assert(self.position as int == w.len());
                            assert(count_scalars(d, d.len() as int) == 0);
                        } else {
                            assert(ci + cs < count_scalars(d, 0));
                            // the new cursors name the stepped character
                            lemma_count_advance_split(d, 0, ci + (cs - ov));
                            lemma_advance_scalars_bounds(w, 0, ciw + (cs - ov));
                        }
                    }
                }
                let chunk = copy_range(&self.buffer, s, e);
                proof {
                    if !self.tainted() {
                        assert(chunk@ =~= d.subrange(base + s, base + e));
                    }
                }
                Some(chunk)
            },
            None => {
                // the caller topped the buffer up, so an exhausted window
                // means the input has ended
                if !self.input_done {
                    proof {
                        assert(false);
                    }
                }
                None
            },
        }
    }
}

/// Runs the streaming character chunker over an in-memory buffer, feeding
/// it the input in blocks of `block_size` bytes.  This is the exact decode,
/// buffering and compaction path a file is processed with, and for valid
/// UTF-8 input of any block size its chunks are exactly the spans that
/// whole-string chunking emits.
#[verifier::loop_isolation(false)]
#[verifier::rlimit(100)]
pub fn chunk_stream_by_characters(
    data: &Vec<u8>,
    block_size: usize,
    chunk_size: usize,
    overlap: usize,
    policy: crate::stream::DecodePolicy,
) -> (r: Result<Vec<Vec<u8>>, ChunkingError>)
    requires
        1 <= block_size,
        chunk_size < usize::MAX,
    ensures
        match r {
            Ok(chunks) => {
                &&& overlap < chunk_size
                &&& (valid_utf8(data@) ==> {
                    let spans = char_spans(data@, chunk_size as int, overlap as int, 0);
                    &&& chunks@.len() == spans.len()
                    &&& forall|i: int|
                        0 <= i < spans.len() ==> (#[trigger] chunks@[i])@ == data@.subrange(
                            spans[i].0,
                            spans[i].1,
                        )
                })
            },
            Err(e) => {
                &&& (overlap >= chunk_size <==> e == (ChunkingError::InvalidArguments {
                    chunk_size,
                    overlap,
                }))
                &&& ((overlap < chunk_size && valid_utf8(data@)) ==> false)
            },
        },
{
    let ghost t = data@;
    let ghost cs = chunk_size as int;
    let ghost ov = overlap as int;
    let ghost spans0 = char_spans(t, cs, ov, 0);
    let mut machine = match CharStreamChunker::new(chunk_size, overlap, policy) {
        Ok(m) => m,
        Err(e) => {
            return Err(e);
        },
    };
    let mut fi: usize = 0;
    let mut out: Vec<Vec<u8>> = Vec::new();
    proof {
        assert(machine.fed() =~= t.subrange(0, 0));
    }
    loop
        invariant
            machine.wf(),
            machine.spec_chunk_size() == cs,
            machine.spec_overlap() == ov,
            fi <= t.len(),
            machine.fed() == t.subrange(0, fi as int),
            machine.done() ==> fi == t.len(),
            valid_utf8(t) ==> {
                &&& !machine.tainted()
                &&& out@.len() <= spans0.len()
                &&& char_spans(t, cs, ov, machine.char_cursor()) =~= spans0.skip(
                    out@.len() as int,
                )
                &&& forall|i: int|
                    0 <= i < out@.len() ==> (#[trigger] out@[i])@ == t.subrange(
                        spans0[i].0,
                        spans0[i].1,
                    )
            },
        decreases t.len() - fi + (if machine.done() {
            0int
        } else {
            1int
        }), machine.lookahead(),
    {
        proof {
            crate::stream::lemma_scan_len_valid(machine.fed());
            if valid_utf8(t) {
                crate::stream::lemma_valid_scan_full(t);
            }
        }
        if machine.needs_input() {
            if fi < data.len() {
                let end: usize = if data.len() - fi < block_size {
                    data.len()
                } else {
                    fi + block_size
                };
                let block = copy_range(data, fi, end);
                proof {
                    assert(machine.fed() + block@ =~= t.subrange(0, end as int));
                    if valid_utf8(t) {
                        crate::stream::lemma_prefix_clean(t, end as int);
                    }
                }
                match machine.push(&block) {
                    Ok(u) => {},
                    Err(e) => {
                        proof {
                            if valid_utf8(t) {
                                assert(false);
                            }
                        }
                        return Err(e);
                    },
                }
                fi = end;
            } else {
                machine.finish();
            }
            continue;
        }
        let ghost d = machine.decoded();
        let ghost ci = machine.char_cursor();
        let ghost nd = count_scalars(d, 0);
        proof {
            if valid_utf8(t) {
                assert(d =~= t.subrange(0, d.len() as int));
                if machine.done() {
                    assert(machine.fed() =~= t);
                    assert(d =~= t);
                }
            }
        }
        match machine.next_chunk() {
            Some(chunk) => {
                proof {
                    if valid_utf8(t) {
                        lemma_count_scalars_nonneg(d, 0);
                        lemma_count_scalars_nonneg(t, 0);
                        if !machine.done() {
                            // the decoded prefix ends on a character
                            // boundary, so counts and steps agree with the
                            // full text as far as the window reaches
                            let suffix = t.subrange(d.len() as int, t.len() as int);
                            assert(t =~= d + suffix);
                            lemma_count_scalars_nonneg(suffix, 0);
                            lemma_scalars_concat(d, suffix, ci);
                            lemma_scalars_concat(d, suffix, ci + cs);
                            lemma_scalars_concat(d, suffix, ci + (cs - ov));
                            assert(count_scalars(t, 0) >= nd);
                            assert(advance_scalars(t, 0, ci) == advance_scalars(d, 0, ci));
                            assert(advance_scalars(t, 0, ci + cs) == advance_scalars(
                                d,
                                0,
                                ci + cs,
                            ));
                            assert(advance_scalars(t, 0, ci + (cs - ov)) == advance_scalars(
                                d,
                                0,
                                ci + (cs - ov),
                            ));
                            lemma_advance_scalars_bounds(d, 0, ci + cs);
                        }
                        let s_t = advance_scalars(t, 0, ci);
                        let e_t = if ci + cs >= count_scalars(t, 0) {
                            t.len() as int
                        } else {
                            advance_scalars(t, 0, ci + cs)
                        };
                        lemma_advance_scalars_bounds(d, 0, ci);
                        lemma_advance_scalars_add(d, 0, ci, cs);
                        lemma_advance_scalars_bounds(d, advance_scalars(d, 0, ci), cs);
                        if machine.done() {
                            assert(chunk@ =~= t.subrange(s_t, e_t));
                        } else {
                            assert(ci + cs < count_scalars(t, 0));
                            assert(e_t == advance_scalars(d, 0, ci + cs));
                            assert(chunk@ == d.subrange(s_t, e_t));
                            assert(chunk@ =~= t.subrange(s_t, e_t));
                        }
                        assert(char_spans(t, cs, ov, ci) =~= spans0.skip(out@.len() as int));
                        if ci + cs >= count_scalars(t, 0) {
                            assert(char_spans(t, cs, ov, ci) =~= seq![(s_t, t.len() as int)]);
                            assert(machine.char_cursor() == count_scalars(t, 0));
                            assert(char_spans(t, cs, ov, machine.char_cursor())
                                =~= Seq::<(int, int)>::empty());
                        } else {
                            assert(char_spans(t, cs, ov, ci) =~= seq![(s_t, e_t)] + char_spans(
                                t,
                                cs,
                                ov,
                                ci + (cs - ov),
                            ));
                            assert(machine.char_cursor() == ci + (cs - ov));
                        }
                        assert(spans0.skip(out@.len() as int)[0] == spans0[out@.len() as int]);
                        assert(spans0.skip(out@.len() as int).drop_first() =~= spans0.skip(
                            out@.len() + 1int,
                        ));
                        assert(char_spans(t, cs, ov, machine.char_cursor()) =~= spans0.skip(
                            out@.len() as int,
                        ).drop_first());
                        assert(char_spans(t, cs, ov, machine.char_cursor()) =~= spans0.skip(
                            out@.len() + 1int,
                        ));
                    }
                }
                out.push(chunk);
            },
            None => {
                proof {
                    if valid_utf8(t) {
                        assert(ci >= count_scalars(t, 0));
                        assert(char_spans(t, cs, ov, ci) =~= Seq::<(int, int)>::empty());
                        assert(out@.len() == spans0.len());
                    }
                }
                return Ok(out);
            },
        }
    }
}

/// The character cursor of a position does not change when the decoded text
/// grows: the characters before it are already fixed.
proof fn lemma_char_cursor_unchanged(d0: Seq<u8>, d: Seq<u8>, c: int)
    requires
        valid_utf8(d0),
        valid_utf8(d),
        d0.len() <= d.len(),
        d0 == d.subrange(0, d0.len() as int),
        0 <= c <= d0.len(),
        is_char_boundary(d0, c),
    ensures
        count_scalars(d0, 0) - count_scalars(d0, c) == count_scalars(d, 0) - count_scalars(d, c),
{
    crate::boundaries::lemma_advance_to_position(d0, c);
    let k = count_scalars(d0, 0) - count_scalars(d0, c);
    crate::boundaries::lemma_char_boundary_stable(d0, d, c);
    crate::boundaries::lemma_advance_to_position(d, c);
    let k2 = count_scalars(d, 0) - count_scalars(d, c);
    // both counts step from the start to the same position, so they agree
    crate::boundaries::lemma_count_scalars_nonneg(d0, c);
    crate::boundaries::lemma_count_scalars_nonneg(d, c);
    crate::boundaries::lemma_advance_scalars_stable(d0, d, 0, k);
    assert(advance_scalars(d, 0, k) == c);
    assert(advance_scalars(d, 0, k2) == c);
    if k != k2 {
        if d0.len() == d.len() {
            assert(d0 =~= d);
        } else {
            assert(c < d.len());
            if k < k2 {
                crate::boundaries::lemma_advance_scalars_add(d, 0, k, k2 - k);
                crate::boundaries::lemma_advance_scalars_bounds(d, c, k2 - k);
            } else {
                crate::boundaries::lemma_advance_scalars_add(d, 0, k2, k - k2);
                crate::boundaries::lemma_advance_scalars_bounds(d, c, k - k2);
            }
            assert(false);
        }
    }
}

/// Splits an in-memory string into overlapping chunks measured in
/// characters.  Fails with `InvalidArguments` whenever the overlap is not
/// smaller than the chunk size; otherwise the returned state object starts
/// at the first character of the text.
pub fn chunk_string_by_characters(text: String, chunk_size: usize, overlap: usize) -> (r: Result<
    CharChunks,
    ChunkingError,
>)
    ensures
        match r {
            Ok(c) => {
                &&& overlap < chunk_size
                &&& c.wf()
                &&& c.text_bytes() == encode_utf8(text@)
                &&& c.char_cursor() == 0
                &&& c.spec_chunk_size() == chunk_size as int
                &&& c.spec_overlap() == overlap as int
            },
            Err(e) => overlap >= chunk_size && e == (ChunkingError::InvalidArguments {
                chunk_size,
                overlap,
            }),
        },
{
    if overlap >= chunk_size {
        return Err(ChunkingError::InvalidArguments { chunk_size, overlap });
    }
    let bytes = crate::string_to_bytes(text.as_str());
    let total = bytes.len();
    assert(total <= usize::MAX);
    let char_positions = build_char_positions(&bytes, 0);
    proof {
        lemma_count_scalars_nonneg(bytes@, 0);
    }
    Ok(
        CharChunks {
            text: bytes,
            char_positions,
            chunk_size,
            overlap,
            position: 0,
            char_position: 0,
        },
    )
}

} // verus!
