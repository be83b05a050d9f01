//! Positional reasoning over UTF-8 byte sequences.
//!
//! The chunking engines work with byte offsets into a UTF-8 buffer.  This
//! module defines the two position-stepping functions they are specified
//! against: `boundary_back`, which walks backward over continuation bytes to
//! the nearest character boundary, and `advance_scalars`, which walks forward
//! over whole characters.  The lemmas relate them to `vstd::utf8`'s notion of
//! validity and character boundaries.

use vstd::prelude::*;
use vstd::utf8::*;

verus! {

/// The nearest character-boundary candidate at or before `i`: steps backward
/// while the byte at the position has the form of a UTF-8 continuation byte.
/// On a valid buffer this is the nearest character boundary at or before `i`.
pub open spec fn boundary_back(t: Seq<u8>, i: int) -> int
    decreases i,
{
    if i <= 0 {
        0
    } else if i >= t.len() {
        i
    } else if !is_continuation_byte(t[i]) {
        i
    } else {
        boundary_back(t, i - 1)
    }
}

/// Every position that `boundary_back` steps over holds a continuation byte.
proof fn lemma_boundary_back_skipped(t: Seq<u8>, i: int, j: int)
    requires
        0 <= i < t.len(),
        boundary_back(t, i) < j <= i,
    ensures
        is_continuation_byte(t[j]),
    decreases i,
{
    if j < i {
        lemma_boundary_back_skipped(t, i - 1, j);
    }
}

/// In a valid UTF-8 sequence no four consecutive bytes are all continuation
/// bytes: every character's encoding is at most four bytes long and starts
/// with a leading byte.
proof fn lemma_cont_run_bounded(t: Seq<u8>, p: int)
    requires
        valid_utf8(t),
        0 <= p,
        p + 3 < t.len(),
    ensures
        !(is_continuation_byte(t[p]) && is_continuation_byte(t[p + 1]) && is_continuation_byte(
            t[p + 2],
        ) && is_continuation_byte(t[p + 3])),
    decreases t.len(),
{
    let l = length_of_first_scalar(t);
    assert(valid_first_scalar(t));
    assert(!is_continuation_byte(t[0]));
    if p == 0 {
    } else if p >= l {
        let rest = pop_first_scalar(t);
        lemma_cont_run_bounded(rest, p - l);
        assert(rest[p - l] == t[p]);
        assert(rest[p - l + 1] == t[p + 1]);
        assert(rest[p - l + 2] == t[p + 2]);
        assert(rest[p - l + 3] == t[p + 3]);
    } else {
        // 1 <= p < l <= 4, so the next character's leading byte at offset l
        // falls inside the window p ..= p + 3.
        let rest = pop_first_scalar(t);
        assert(1 <= l <= 4);
        assert(rest.len() > 0);
        assert(valid_utf8(rest));
        assert(valid_first_scalar(rest));
        assert(!is_continuation_byte(rest[0]));
        assert(rest[0] == t[l]);
    }
}

/// On a valid buffer, `boundary_back` lands on a character boundary at most
/// three bytes before the requested position.
pub proof fn lemma_boundary_back_props(t: Seq<u8>, i: int)
    requires
        valid_utf8(t),
        0 <= i <= t.len(),
    ensures
        0 <= boundary_back(t, i) <= i,
        i - boundary_back(t, i) <= 3,
        is_char_boundary(t, boundary_back(t, i)),
    decreases i,
{
    broadcast use is_char_boundary_start_end_of_seq, is_char_boundary_iff_not_is_continuation_byte;

    let b = boundary_back(t, i);
    if i <= 0 || i >= t.len() || !is_continuation_byte(t[i]) {
        // b == 0, b == i == t.len(), or b == i at a non-continuation byte
    } else {
        lemma_boundary_back_props(t, i - 1);
        assert(b == boundary_back(t, i - 1));
    }
    if i < t.len() && i - b > 3 {
        lemma_boundary_back_skipped(t, i, b + 1);
        lemma_boundary_back_skipped(t, i, b + 2);
        lemma_boundary_back_skipped(t, i, b + 3);
        lemma_boundary_back_skipped(t, i, b + 4);
        lemma_cont_run_bounded(t, b + 1);
        assert(false);
    }
}

/// `boundary_back` never steps back past a position holding a leading byte;
/// in particular it never moves below a known character boundary.
pub proof fn lemma_boundary_back_at_least(t: Seq<u8>, i: int, s: int)
    requires
        0 <= s <= i,
        s < t.len() ==> !is_continuation_byte(t[s]),
    ensures
        boundary_back(t, i) >= s,
    decreases i,
{
    if i <= 0 || i >= t.len() || !is_continuation_byte(t[i]) {
    } else {
        if s == i {
        } else {
            lemma_boundary_back_at_least(t, i - 1, s);
        }
    }
}

/// The byte length of the character encoding that starts at position `p`,
/// read off the leading byte; between 1 and 4.
pub open spec fn scalar_len_at(t: Seq<u8>, p: int) -> int {
    length_of_first_scalar(t.subrange(p, t.len() as int))
}

/// The byte position reached from `p` by stepping forward over `k` whole
/// characters, capped at the end of the buffer.
pub open spec fn advance_scalars(t: Seq<u8>, p: int, k: int) -> int
    decreases k,
{
    if k <= 0 || p < 0 || p >= t.len() {
        p
    } else {
        let q = if p + scalar_len_at(t, p) > t.len() {
            t.len() as int
        } else {
            p + scalar_len_at(t, p)
        };
        advance_scalars(t, q, k - 1)
    }
}

/// The number of characters encoded from position `p` to the end of the
/// buffer.
pub open spec fn count_scalars(t: Seq<u8>, p: int) -> int
    decreases t.len() - p,
{
    if p < 0 || p >= t.len() {
        0
    } else {
        let q = if p + scalar_len_at(t, p) > t.len() {
            t.len() as int
        } else {
            p + scalar_len_at(t, p)
        };
        1 + count_scalars(t, q)
    }
}

/// One step from a position inside the buffer consumes the character
/// encoding starting there, capped at the end of the buffer.
pub proof fn lemma_advance_scalars_one(t: Seq<u8>, p: int)
    requires
        0 <= p < t.len(),
    ensures
        advance_scalars(t, p, 1) == (if p + scalar_len_at(t, p) > t.len() {
            t.len() as int
        } else {
            p + scalar_len_at(t, p)
        }),
{
    reveal_with_fuel(advance_scalars, 2);
}

/// Stepping over `a + b` characters is stepping over `a`, then over `b`.
pub proof fn lemma_advance_scalars_add(t: Seq<u8>, p: int, a: int, b: int)
    requires
        0 <= a,
        0 <= b,
    ensures
        advance_scalars(t, p, a + b) == advance_scalars(t, advance_scalars(t, p, a), b),
    decreases a,
{
    if a == 0 || p < 0 || p >= t.len() {
    } else {
        let q = if p + scalar_len_at(t, p) > t.len() {
            t.len() as int
        } else {
            p + scalar_len_at(t, p)
        };
        lemma_advance_scalars_add(t, q, a - 1, b);
    }
}

/// Stepping over characters never moves backward and never leaves the buffer.
pub proof fn lemma_advance_scalars_bounds(t: Seq<u8>, p: int, k: int)
    requires
        0 <= p <= t.len(),
        0 <= k,
    ensures
        p <= advance_scalars(t, p, k) <= t.len(),
        k > 0 && p < t.len() ==> p < advance_scalars(t, p, k),
    decreases k,
{
    if k == 0 || p >= t.len() {
    } else {
        let q = if p + scalar_len_at(t, p) > t.len() {
            t.len() as int
        } else {
            p + scalar_len_at(t, p)
        };
        lemma_advance_scalars_bounds(t, q, k - 1);
    }
}

/// There is never a negative number of characters ahead of a position.
pub proof fn lemma_count_scalars_nonneg(t: Seq<u8>, p: int)
    ensures
        count_scalars(t, p) >= 0,
    decreases t.len() - p,
{
    if p < 0 || p >= t.len() {
    } else {
        let q = if p + scalar_len_at(t, p) > t.len() {
            t.len() as int
        } else {
            p + scalar_len_at(t, p)
        };
        lemma_count_scalars_nonneg(t, q);
    }
}

/// Stepping over as many characters as remain reaches the end of the buffer
/// exactly; stepping over fewer stops short of it.
pub proof fn lemma_count_scalars(t: Seq<u8>, p: int, k: int)
    requires
        0 <= p <= t.len(),
        0 <= k,
    ensures
        k < count_scalars(t, p) ==> advance_scalars(t, p, k) < t.len(),
        k >= count_scalars(t, p) ==> advance_scalars(t, p, k) == t.len(),
    decreases k,
{
    if p >= t.len() {
    } else {
        let q = if p + scalar_len_at(t, p) > t.len() {
            t.len() as int
        } else {
            p + scalar_len_at(t, p)
        };
        lemma_count_scalars_nonneg(t, q);
        if k > 0 {
            lemma_count_scalars(t, q, k - 1);
        }
    }
}

/// On a valid buffer, stepping over characters from a character boundary
/// lands on a character boundary, and each step consumes exactly one whole
/// character encoding, never the cap.
pub proof fn lemma_advance_scalars_boundary(t: Seq<u8>, p: int, k: int)
    requires
        valid_utf8(t),
        0 <= p <= t.len(),
        is_char_boundary(t, p),
        0 <= k,
    ensures
        is_char_boundary(t, advance_scalars(t, p, k)),
        p < t.len() ==> p + scalar_len_at(t, p) <= t.len(),
    decreases k,
{
    broadcast use is_char_boundary_start_end_of_seq, is_char_boundary_iff_not_is_continuation_byte;

    if p >= t.len() {
    } else {
        valid_utf8_split(t, p);
        let suffix = t.subrange(p, t.len() as int);
        assert(valid_utf8(suffix));
        assert(suffix.len() > 0);
        assert(valid_first_scalar(suffix));
        let l = length_of_first_scalar(suffix);
        assert(1 <= l && l <= suffix.len());
        let q = p + l;
        assert(q <= t.len());
        if q < t.len() {
            let rest = pop_first_scalar(suffix);
            assert(valid_utf8(rest));
            assert(rest.len() > 0);
            assert(valid_first_scalar(rest));
            assert(!is_continuation_byte(rest[0]));
            assert(rest[0] == t[q]);
            assert(is_char_boundary(t, q));
        }
        if k > 0 {
            lemma_advance_scalars_boundary(t, q, k - 1);
        }
    }
}

/// A slice of a valid UTF-8 buffer taken between two character boundaries is
/// itself valid UTF-8.
pub proof fn lemma_valid_slice(t: Seq<u8>, s: int, e: int)
    requires
        valid_utf8(t),
        0 <= s <= e <= t.len(),
        is_char_boundary(t, s),
        is_char_boundary(t, e),
    ensures
        valid_utf8(t.subrange(s, e)),
        is_char_boundary(t.subrange(s, t.len() as int), e - s),
{
    broadcast use is_char_boundary_start_end_of_seq, is_char_boundary_iff_not_is_continuation_byte;

    valid_utf8_split(t, s);
    let suffix = t.subrange(s, t.len() as int);
    assert(valid_utf8(suffix));
    if e == t.len() {
        assert(is_char_boundary(suffix, e - s));
    } else {
        assert(!is_continuation_byte(t[e]));
        assert(suffix[e - s] == t[e]);
        assert(is_char_boundary(suffix, e - s));
    }
    valid_utf8_split(suffix, e - s);
    assert(suffix.subrange(0, e - s) =~= t.subrange(s, e));
}

/// Character stepping in a suffix window agrees with character stepping in
/// the whole buffer: the window ends where the buffer ends.
pub proof fn lemma_advance_scalars_suffix(t: Seq<u8>, a: int, p: int, k: int)
    requires
        0 <= a <= t.len(),
        0 <= p,
        0 <= k,
    ensures
        advance_scalars(t.subrange(a, t.len() as int), p, k) + a == advance_scalars(t, a + p, k),
    decreases k,
{
    let w = t.subrange(a, t.len() as int);
    if k == 0 || p >= w.len() {
    } else {
        assert(w.subrange(p, w.len() as int) =~= t.subrange(a + p, t.len() as int));
        assert(scalar_len_at(w, p) == scalar_len_at(t, a + p));
        let l = scalar_len_at(w, p);
        if p + l > w.len() {
            lemma_advance_scalars_suffix(t, a, w.len() as int, k - 1);
        } else {
            lemma_advance_scalars_suffix(t, a, p + l, k - 1);
        }
    }
}

/// Character counting in a suffix window agrees with character counting in
/// the whole buffer.
pub proof fn lemma_count_scalars_suffix(t: Seq<u8>, a: int, p: int)
    requires
        0 <= a <= t.len(),
        0 <= p,
    ensures
        count_scalars(t.subrange(a, t.len() as int), p) == count_scalars(t, a + p),
    decreases t.len() - a - p,
{
    let w = t.subrange(a, t.len() as int);
    if p >= w.len() {
    } else {
        assert(w.subrange(p, w.len() as int) =~= t.subrange(a + p, t.len() as int));
        assert(scalar_len_at(w, p) == scalar_len_at(t, a + p));
        let l = scalar_len_at(w, p);
        if p + l > w.len() {
            lemma_count_scalars_suffix(t, a, w.len() as int);
        } else {
            lemma_count_scalars_suffix(t, a, p + l);
        }
    }
}

/// Splitting the count at an advanced position: the characters ahead of `p`
/// are the `k` stepped over (or all of them, if fewer) plus those ahead of
/// the reached position.
pub proof fn lemma_count_advance_split(t: Seq<u8>, p: int, k: int)
    requires
        0 <= p <= t.len(),
        0 <= k,
    ensures
        count_scalars(t, p) == (if k <= count_scalars(t, p) {
            k
        } else {
            count_scalars(t, p)
        }) + count_scalars(t, advance_scalars(t, p, k)),
    decreases k,
{
    lemma_count_scalars_nonneg(t, p);
    if k == 0 || p >= t.len() {
    } else {
        let q = if p + scalar_len_at(t, p) > t.len() {
            t.len() as int
        } else {
            p + scalar_len_at(t, p)
        };
        lemma_count_advance_split(t, q, k - 1);
        lemma_count_scalars_nonneg(t, advance_scalars(t, q, k - 1));
    }
}

/// `boundary_back` reads nothing past its position: it agrees between a
/// buffer and any extension of it.
pub proof fn lemma_boundary_back_stable(t: Seq<u8>, t2: Seq<u8>, i: int)
    requires
        t.len() <= t2.len(),
        t == t2.subrange(0, t.len() as int),
        0 <= i < t.len(),
    ensures
        boundary_back(t, i) == boundary_back(t2, i),
    decreases i,
{
    assert(t[i] == t2[i]);
    if i <= 0 || !is_continuation_byte(t[i]) {
    } else {
        lemma_boundary_back_stable(t, t2, i - 1);
    }
}

/// A character boundary of a valid buffer is still a character boundary of
/// any valid extension of it: the parse up to the boundary reads only bytes
/// before it.
pub proof fn lemma_char_boundary_stable(t: Seq<u8>, t2: Seq<u8>, c: int)
    requires
        valid_utf8(t),
        valid_utf8(t2),
        t.len() <= t2.len(),
        t == t2.subrange(0, t.len() as int),
        0 <= c <= t.len(),
        is_char_boundary(t, c),
    ensures
        is_char_boundary(t2, c),
    decreases c,
{
    if c == 0 {
    } else {
        assert(t.len() > 0);
        assert(t[0] == t2[0]);
        assert(valid_first_scalar(t));
        let l = length_of_first_scalar(t);
        assert(l <= t.len());
        assert(length_of_first_scalar(t2) == l);
        let pt = pop_first_scalar(t);
        let pt2 = pop_first_scalar(t2);
        assert(valid_utf8(pt));
        assert(valid_utf8(pt2));
        assert(pt =~= pt2.subrange(0, pt.len() as int));
        assert(is_char_boundary(pt, c - l));
        if c - l < 0 {
            assert(!is_char_boundary(pt, c - l));
        }
        lemma_char_boundary_stable(pt, pt2, c - l);
    }
}

/// Character stepping in a valid buffer agrees with character stepping in
/// any extension of it, as long as the steps stay inside the buffer: a valid
/// buffer ends on a character boundary, so no step straddles its end.
pub proof fn lemma_advance_scalars_stable(t: Seq<u8>, t2: Seq<u8>, p: int, k: int)
    requires
        valid_utf8(t),
        t.len() <= t2.len(),
        t == t2.subrange(0, t.len() as int),
        0 <= p <= t.len(),
        is_char_boundary(t, p),
        0 <= k <= count_scalars(t, p),
    ensures
        advance_scalars(t2, p, k) == advance_scalars(t, p, k),
    decreases k,
{
    if k == 0 {
    } else {
        lemma_count_scalars_nonneg(t, p);
        assert(p < t.len());
        assert(t.subrange(p, t.len() as int) =~= t2.subrange(p, t2.len() as int).subrange(
            0,
            t.len() - p,
        ));
        assert(t.subrange(p, t.len() as int)[0] == t2.subrange(p, t2.len() as int)[0]);
        assert(scalar_len_at(t, p) == scalar_len_at(t2, p));
        let l = scalar_len_at(t, p);
        lemma_advance_scalars_boundary(t, p, 1);
        assert(p + l <= t.len());
        lemma_advance_scalars_one(t, p);
        lemma_advance_scalars_one(t2, p);
        assert(advance_scalars(t, p, 1) == p + l);
        assert(advance_scalars(t2, p, 1) == p + l);
        lemma_advance_scalars_add(t, p, 1, k - 1);
        lemma_advance_scalars_add(t2, p, 1, k - 1);
        lemma_count_advance_split(t, p, 1);
        lemma_advance_scalars_stable(t, t2, p + l, k - 1);
    }
}

/// Characters of a concatenation: a valid first part contributes exactly
/// its own characters, stepped exactly as it steps alone; the remaining
/// steps continue into the second part.
pub proof fn lemma_scalars_concat(a: Seq<u8>, b: Seq<u8>, k: int)
    requires
        valid_utf8(a),
        0 <= k,
    ensures
        count_scalars(a + b, 0) == count_scalars(a, 0) + count_scalars(b, 0),
        k <= count_scalars(a, 0) ==> advance_scalars(a + b, 0, k) == advance_scalars(a, 0, k),
        k >= count_scalars(a, 0) ==> advance_scalars(a + b, 0, k) == a.len() + advance_scalars(
            b,
            0,
            k - count_scalars(a, 0),
        ),
    decreases a.len(),
{
    let ab = a + b;
    if a.len() == 0 {
        assert(ab =~= b);
        lemma_count_scalars_nonneg(b, 0);
    } else {
        assert(valid_first_scalar(a));
        let l = length_of_first_scalar(a);
        assert(1 <= l <= a.len());
        assert(a.subrange(0, a.len() as int) =~= a);
        assert(scalar_len_at(a, 0) == l);
        assert(ab.subrange(0, ab.len() as int) =~= ab);
        assert(ab[0] == a[0]);
        assert(scalar_len_at(ab, 0) == l);
        let ra = pop_first_scalar(a);
        assert(valid_utf8(ra));
        lemma_scalars_concat(ra, b, if k >= 1 {
            k - 1
        } else {
            0
        });
        lemma_count_scalars_nonneg(ra + b, 0);
        lemma_count_scalars_nonneg(b, 0);
        lemma_count_scalars_nonneg(ra, 0);
        // one character in, the rest is the popped first part plus `b`
        lemma_count_scalars_suffix(ab, l, 0);
        assert(ab.subrange(l, ab.len() as int) =~= ra + b);
        assert(count_scalars(ab, l) == count_scalars(ra + b, 0));
        lemma_count_scalars_suffix(a, l, 0);
        assert(a.subrange(l, a.len() as int) =~= ra);
        assert(count_scalars(a, l) == count_scalars(ra, 0));
        if k >= 1 {
            lemma_advance_scalars_suffix(ab, l, 0, k - 1);
            lemma_advance_scalars_suffix(a, l, 0, k - 1);
            assert(advance_scalars(ab, 0, k) == advance_scalars(ab, l, k - 1));
            assert(advance_scalars(a, 0, k) == advance_scalars(a, l, k - 1));
        }
    }
}

/// The number of characters before a character boundary names it: stepping
/// over that many characters from the start lands exactly on the boundary.
pub proof fn lemma_advance_to_position(t: Seq<u8>, p: int)
    requires
        valid_utf8(t),
        0 <= p <= t.len(),
        is_char_boundary(t, p),
    ensures
        advance_scalars(t, 0, count_scalars(t, 0) - count_scalars(t, p)) == p,
        count_scalars(t, p) <= count_scalars(t, 0),
    decreases t.len(),
{
    lemma_count_scalars_nonneg(t, 0);
    lemma_count_scalars_nonneg(t, p);
    if p == 0 {
        assert(count_scalars(t, 0) - count_scalars(t, 0) == 0);
    } else {
        assert(t.len() > 0);
        assert(valid_first_scalar(t));
        let l = length_of_first_scalar(t);
        assert(1 <= l <= t.len());
        let rest = pop_first_scalar(t);
        assert(valid_utf8(rest));
        assert(is_char_boundary(rest, p - l));
        if p - l < 0 {
            assert(!is_char_boundary(rest, p - l));
        }
        lemma_advance_to_position(rest, p - l);
        assert(t.subrange(0, t.len() as int) =~= t);
        assert(scalar_len_at(t, 0) == l);
        assert(t.subrange(l, t.len() as int) =~= rest);
        lemma_count_scalars_suffix(t, l, 0);
        lemma_count_scalars_suffix(t, l, p - l);
        assert(count_scalars(t, 0) == 1 + count_scalars(rest, 0));
        assert(count_scalars(t, p) == count_scalars(rest, p - l));
        let j = count_scalars(rest, 0) - count_scalars(rest, p - l);
        lemma_advance_scalars_suffix(t, l, 0, j);
        assert(advance_scalars(t, l, j) == l + advance_scalars(rest, 0, j));
        assert(advance_scalars(t, 0, 1 + j) == advance_scalars(t, l, j));
    }
}

/// The reconstruction of a text from its chunk spans: for every chunk but
/// the last, the piece from its start to the next chunk's start; then the
/// whole last chunk.
pub open spec fn rebuild(t: Seq<u8>, spans: Seq<(int, int)>) -> Seq<u8>
    decreases spans.len(),
{
    if spans.len() == 0 {
        Seq::empty()
    } else if spans.len() == 1 {
        t.subrange(spans[0].0, spans[0].1)
    } else {
        t.subrange(spans[0].0, spans[1].0) + rebuild(t, spans.drop_first())
    }
}

/// `boundary_back` over a suffix window agrees with `boundary_back` over the
/// whole sequence, as long as the window starts at a non-continuation byte.
pub proof fn lemma_boundary_back_shift(t: Seq<u8>, base: int, i: int)
    requires
        0 <= base <= t.len(),
        base < t.len() ==> !is_continuation_byte(t[base]),
        0 <= i <= t.len() - base,
    ensures
        boundary_back(t.subrange(base, t.len() as int), i) == boundary_back(t, base + i) - base,
    decreases i,
{
    let w = t.subrange(base, t.len() as int);
    if i <= 0 {
        assert(boundary_back(w, i) == 0);
        if base < t.len() {
            assert(boundary_back(t, base) == base);
        }
    } else if i >= w.len() {
        // base + i >= t.len(), both sides return their argument
    } else {
        assert(w[i] == t[base + i]);
        if !is_continuation_byte(w[i]) {
        } else {
            lemma_boundary_back_shift(t, base, i - 1);
        }
    }
}

} // verus!
