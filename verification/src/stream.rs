//! The block-decode layer: input arrives as arbitrary byte blocks, and the
//! decoder hands on the longest prefix that is whole, valid UTF-8, carrying
//! an incomplete trailing character forward to the next block.  What a block
//! decoder cannot complete at the very end of the input is dropped; bytes
//! that can never begin a character are handled by a policy, either failing
//! the stream or skipping a byte and carrying on.

use vstd::prelude::*;
use vstd::utf8::*;

use crate::ChunkingError;

verus! {

/// The length of the longest prefix of `b` that parses as a sequence of
/// whole, valid UTF-8 character encodings.
pub open spec fn scan_len(b: Seq<u8>) -> int
    decreases b.len(),
{
    if b.len() == 0 {
        0
    } else if valid_first_scalar(b) {
        length_of_first_scalar(b) + scan_len(pop_first_scalar(b))
    } else {
        0
    }
}

/// `b` could be the first bytes of a single character's encoding: a leading
/// byte that wants more bytes than are present, followed by continuation
/// bytes.
pub open spec fn incomplete_scalar(b: Seq<u8>) -> bool {
    &&& 1 <= b.len() <= 3
    &&& (b.len() == 1 ==> 0xc0 <= b[0] <= 0xf7)
    &&& (b.len() == 2 ==> 0xe0 <= b[0] <= 0xf7 && is_continuation_byte(b[1]))
    &&& (b.len() == 3 ==> 0xf0 <= b[0] <= 0xf7 && is_continuation_byte(b[1])
        && is_continuation_byte(b[2]))
}

/// `b` could be a prefix of a valid UTF-8 stream: whole valid characters
/// followed by at most the beginning of one more.
pub open spec fn clean_prefix(b: Seq<u8>) -> bool {
    scan_len(b) == b.len() || incomplete_scalar(b.subrange(scan_len(b), b.len() as int))
}

/// What the scanner accepts is valid UTF-8, and no longer than the input.
pub proof fn lemma_scan_len_valid(b: Seq<u8>)
    ensures
        0 <= scan_len(b) <= b.len(),
        valid_utf8(b.subrange(0, scan_len(b))),
    decreases b.len(),
{
    if b.len() == 0 {
        assert(b.subrange(0, 0) =~= Seq::<u8>::empty());
    } else if valid_first_scalar(b) {
        let l = length_of_first_scalar(b);
        let rest = pop_first_scalar(b);
        lemma_scan_len_valid(rest);
        let k = l + scan_len(rest);
        let x = b.subrange(0, k);
        assert(x.len() == k);
        assert(forall|i: int| 0 <= i < k ==> x[i] == b[i]);
        assert(valid_first_scalar(x));
        assert(length_of_first_scalar(x) == l);
        assert(pop_first_scalar(x) =~= rest.subrange(0, scan_len(rest)));
        assert(valid_utf8(x));
    } else {
        assert(b.subrange(0, 0) =~= Seq::<u8>::empty());
    }
}

/// A fully valid buffer scans to its full length.
pub proof fn lemma_valid_scan_full(b: Seq<u8>)
    requires
        valid_utf8(b),
    ensures
        scan_len(b) == b.len(),
    decreases b.len(),
{
    if b.len() == 0 {
    } else {
        lemma_valid_scan_full(pop_first_scalar(b));
    }
}

/// Whether a whole valid character starts at the front depends only on its
/// own bytes: it persists when more bytes are appended.
proof fn lemma_first_scalar_extend(a: Seq<u8>, b: Seq<u8>)
    requires
        valid_first_scalar(a),
    ensures
        valid_first_scalar(a + b),
        length_of_first_scalar(a + b) == length_of_first_scalar(a),
{
    let l = length_of_first_scalar(a);
    assert(1 <= l <= a.len());
    assert((a + b)[0] == a[0]);
    if l >= 2 {
        assert((a + b)[1] == a[1]);
    }
    if l >= 3 {
        assert((a + b)[2] == a[2]);
    }
    if l >= 4 {
        assert((a + b)[3] == a[3]);
    }
}

/// Scanning a concatenation: the scanner walks the whole characters of the
/// first part, then scans the first part's unconsumed tail extended by the
/// second part.
pub proof fn lemma_scan_len_append(a: Seq<u8>, b: Seq<u8>)
    ensures
        scan_len(a + b) == scan_len(a) + scan_len(a.subrange(scan_len(a), a.len() as int) + b),
    decreases a.len(),
{
    lemma_scan_len_valid(a);
    if a.len() == 0 {
        assert(a + b =~= b);
        assert(a.subrange(0, 0) + b =~= b);
    } else if valid_first_scalar(a) {
        lemma_first_scalar_extend(a, b);
        let l = length_of_first_scalar(a);
        let ra = pop_first_scalar(a);
        assert(pop_first_scalar(a + b) =~= ra + b);
        lemma_scan_len_append(ra, b);
        lemma_scan_len_valid(ra);
        assert(scan_len(a) == l + scan_len(ra));
        assert(ra.subrange(scan_len(ra), ra.len() as int) =~= a.subrange(
            scan_len(a),
            a.len() as int,
        ));
    } else {
        assert(a.subrange(0, a.len() as int) =~= a);
        assert(a.subrange(0, a.len() as int) + b =~= a + b);
    }
}

/// A proper prefix of a single valid character's encoding passes the
/// incomplete test.
proof fn lemma_scalar_prefix_incomplete(v: Seq<u8>, m: int)
    requires
        valid_first_scalar(v),
        1 <= m < length_of_first_scalar(v),
    ensures
        incomplete_scalar(v.subrange(0, m)),
{
    let l = length_of_first_scalar(v);
    let b = v.subrange(0, m);
    assert(b[0] == v[0]);
    if m >= 2 {
        assert(b[1] == v[1]);
    }
    if m >= 3 {
        assert(b[2] == v[2]);
    }
    if is_leading_byte_width_1(v[0]) {
        assert(false);
    } else if is_leading_byte_width_2(v[0]) {
        assert(m == 1);
    } else if is_leading_byte_width_3(v[0]) {
        assert(is_continuation_byte(v[1]) && is_continuation_byte(v[2]));
    } else {
        assert(is_continuation_byte(v[1]) && is_continuation_byte(v[2]) && is_continuation_byte(
            v[3],
        ));
    }
}

/// Every prefix of a valid buffer is clean: the cut falls between
/// characters or inside a single one.
pub proof fn lemma_prefix_clean(v: Seq<u8>, m: int)
    requires
        valid_utf8(v),
        0 <= m <= v.len(),
    ensures
        clean_prefix(v.subrange(0, m)),
    decreases v.len(),
{
    let b = v.subrange(0, m);
    if m == 0 {
        assert(scan_len(b) == 0);
    } else {
        assert(valid_first_scalar(v));
        let l = length_of_first_scalar(v);
        assert(b[0] == v[0]);
        if m >= l {
            if l >= 2 {
                assert(b[1] == v[1]);
            }
            if l >= 3 {
                assert(b[2] == v[2]);
            }
            if l >= 4 {
                assert(b[3] == v[3]);
            }
            assert(valid_first_scalar(b));
            assert(length_of_first_scalar(b) == l);
            let rest = pop_first_scalar(v);
            let rb = pop_first_scalar(b);
            assert(rb =~= rest.subrange(0, m - l));
            lemma_prefix_clean(rest, m - l);
            lemma_scan_len_valid(rb);
            assert(scan_len(b) == l + scan_len(rb));
            assert(b.subrange(scan_len(b), b.len() as int) =~= rb.subrange(
                scan_len(rb),
                rb.len() as int,
            ));
        } else {
            if m >= 2 {
                assert(b[1] == v[1]);
            }
            if m >= 3 {
                assert(b[2] == v[2]);
            }
            assert(!valid_first_scalar(b));
            assert(scan_len(b) == 0);
            lemma_scalar_prefix_incomplete(v, m);
            assert(b.subrange(0, b.len() as int) =~= b);
        }
    }
}

proof fn bv_width1_small(b0: u8)
    by (bit_vector)
    requires
        b0 < 0x80,
    ensures
        codepoint_width_1(b0) < 0x80,
{
}

proof fn bv_scalar_width2(b0: u8, b1: u8)
    by (bit_vector)
    requires
        0xc0 <= b0 <= 0xdf,
        0x80 <= b1 <= 0xbf,
    ensures
        b0 >= 0xc2 ==> 0x80 <= codepoint_width_2(b0, b1) <= 0x7ff,
        b0 <= 0xc1 ==> codepoint_width_2(b0, b1) < 0x80,
{
}

proof fn bv_scalar_width3(b0: u8, b1: u8, b2: u8)
    by (bit_vector)
    requires
        0xe0 <= b0 <= 0xef,
        0x80 <= b1 <= 0xbf,
        0x80 <= b2 <= 0xbf,
    ensures
        (b0 != 0xe0 || b1 >= 0xa0) ==> codepoint_width_3(b0, b1, b2) >= 0x800,
        (b0 == 0xe0 && b1 < 0xa0) ==> codepoint_width_3(b0, b1, b2) < 0x800,
        (b0 == 0xed && b1 >= 0xa0) ==> 0xd800 <= codepoint_width_3(b0, b1, b2) <= 0xdfff,
        (b0 != 0xed || b1 < 0xa0) ==> !(0xd800 <= codepoint_width_3(b0, b1, b2) <= 0xdfff),
        codepoint_width_3(b0, b1, b2) <= 0xffff,
{
}

proof fn bv_scalar_width4(b0: u8, b1: u8, b2: u8, b3: u8)
    by (bit_vector)
    requires
        0xf0 <= b0 <= 0xf7,
        0x80 <= b1 <= 0xbf,
        0x80 <= b2 <= 0xbf,
        0x80 <= b3 <= 0xbf,
    ensures
        (b0 == 0xf0 && b1 < 0x90) ==> codepoint_width_4(b0, b1, b2, b3) < 0x10000,
        ((b0 != 0xf0 || b1 >= 0x90) && b0 <= 0xf4 && (b0 != 0xf4 || b1 <= 0x8f)) ==> 0x10000
            <= codepoint_width_4(b0, b1, b2, b3) <= 0x10ffff,
        (b0 == 0xf4 && b1 > 0x8f) ==> codepoint_width_4(b0, b1, b2, b3) > 0x10ffff,
        b0 >= 0xf5 ==> codepoint_width_4(b0, b1, b2, b3) > 0x10ffff,
{
}

/// Checks whether a whole, valid character encoding starts at `p`, and
/// returns its byte length; 0 when none does.
fn scalar_at(v: &Vec<u8>, p: usize) -> (l: usize)
    requires
        p < v@.len(),
    ensures
        ({
            let suffix = v@.subrange(p as int, v@.len() as int);
            &&& (l == 0 ==> !valid_first_scalar(suffix))
            &&& (l != 0 ==> valid_first_scalar(suffix) && l as int == length_of_first_scalar(
                suffix,
            ))
            &&& p + l <= v@.len()
        }),
{
    let ghost suffix = v@.subrange(p as int, v@.len() as int);
    let n = v.len();
    let b0 = v[p];
    proof {
        assert(suffix[0] == b0);
    }
    if b0 < 0x80 {
        proof {
            bv_width1_small(b0);
        }
        return 1;
    }
    if 0xc2 <= b0 && b0 <= 0xdf {
        if n - p < 2 {
            return 0;
        }
        let b1 = v[p + 1];
        proof {
            assert(suffix[1] == b1);
        }
        if !(0x80 <= b1 && b1 <= 0xbf) {
            return 0;
        }
        proof {
            bv_scalar_width2(b0, b1);
        }
        return 2;
    }
    if 0xe0 <= b0 && b0 <= 0xef {
        if n - p < 3 {
            return 0;
        }
        let b1 = v[p + 1];
        let b2 = v[p + 2];
        proof {
            assert(suffix[1] == b1);
            assert(suffix[2] == b2);
        }
        if !(0x80 <= b1 && b1 <= 0xbf) || !(0x80 <= b2 && b2 <= 0xbf) {
            return 0;
        }
        let second_ok = if b0 == 0xe0 {
            0xa0 <= b1
        } else if b0 == 0xed {
            b1 <= 0x9f
        } else {
            true
        };
        proof {
            bv_scalar_width3(b0, b1, b2);
        }
        if !second_ok {
            return 0;
        }
        return 3;
    }
    if 0xf0 <= b0 && b0 <= 0xf4 {
        if n - p < 4 {
            return 0;
        }
        let b1 = v[p + 1];
        let b2 = v[p + 2];
        let b3 = v[p + 3];
        proof {
            assert(suffix[1] == b1);
            assert(suffix[2] == b2);
            assert(suffix[3] == b3);
        }
        if !(0x80 <= b1 && b1 <= 0xbf) || !(0x80 <= b2 && b2 <= 0xbf) || !(0x80 <= b3 && b3
            <= 0xbf) {
            return 0;
        }
        let second_ok = if b0 == 0xf0 {
            0x90 <= b1
        } else if b0 == 0xf4 {
            b1 <= 0x8f
        } else {
            true
        };
        proof {
            bv_scalar_width4(b0, b1, b2, b3);
        }
        if !second_ok {
            return 0;
        }
        return 4;
    }
    // a continuation byte, an always-overlong lead, or a lead past U+10FFFF
    proof {
        if 0xc0 <= b0 && b0 <= 0xc1 {
            if suffix.len() >= 2 && is_continuation_byte(suffix[1]) {
                bv_scalar_width2(b0, suffix[1]);
            }
        }
        if 0xf5 <= b0 && b0 <= 0xf7 {
            if suffix.len() >= 4 && is_continuation_byte(suffix[1]) && is_continuation_byte(
                suffix[2],
            ) && is_continuation_byte(suffix[3]) {
                bv_scalar_width4(b0, suffix[1], suffix[2], suffix[3]);
            }
        }
        assert(!valid_first_scalar(suffix));
    }
    0
}

/// The length of the longest run of whole, valid characters in `v` starting
/// at `from`, mirroring `scan_len` on that suffix.
fn utf8_scan(v: &Vec<u8>, from: usize) -> (k: usize)
    requires
        from <= v@.len(),
    ensures
        from + k <= v@.len(),
        k as int == scan_len(v@.subrange(from as int, v@.len() as int)),
{
    let mut p = from;
    loop
        invariant
            from <= p <= v@.len(),
            scan_len(v@.subrange(from as int, v@.len() as int)) == (p - from) + scan_len(
                v@.subrange(p as int, v@.len() as int),
            ),
        decreases v@.len() - p,
    {
        if p >= v.len() {
            proof {
                assert(v@.subrange(p as int, v@.len() as int) =~= Seq::<u8>::empty());
            }
            return p - from;
        }
        let l = scalar_at(v, p);
        if l == 0 {
            return p - from;
        }
        proof {
            let sp = v@.subrange(p as int, v@.len() as int);
            assert(pop_first_scalar(sp) =~= v@.subrange(p + l, v@.len() as int));
        }
        p = p + l;
    }
}

/// Whether the bytes from `from` on could begin one more character.
fn is_incomplete_suffix(v: &Vec<u8>, from: usize) -> (r: bool)
    requires
        from <= v@.len(),
    ensures
        r == incomplete_scalar(v@.subrange(from as int, v@.len() as int)),
{
    let ghost suffix = v@.subrange(from as int, v@.len() as int);
    let n = v.len() - from;
    if n == 0 || n > 3 {
        return false;
    }
    let b0 = v[from];
    proof {
        assert(suffix[0] == b0);
    }
    if n == 1 {
        return 0xc0 <= b0 && b0 <= 0xf7;
    }
    let b1 = v[from + 1];
    proof {
        assert(suffix[1] == b1);
    }
    if n == 2 {
        return 0xe0 <= b0 && b0 <= 0xf7 && 0x80 <= b1 && b1 <= 0xbf;
    }
    let b2 = v[from + 2];
    proof {
        assert(suffix[2] == b2);
    }
    0xf0 <= b0 && b0 <= 0xf7 && 0x80 <= b1 && b1 <= 0xbf && 0x80 <= b2 && b2 <= 0xbf
}

/// What the decoder does with bytes that can never begin a character: fail
/// the stream, or skip one byte and carry on.
#[derive(Debug, Clone, Copy, PartialEq, Eq, Structural)]
pub enum DecodePolicy {
    StrictFail,
    BestEffortSkip,
}

/// Decoder state for block-wise UTF-8 decoding: the bytes of an incomplete
/// trailing character held back for the next block, the policy on malformed
/// bytes, and whether the stream has been declared corrupt.
pub struct Utf8Decoder {
    leftover: Vec<u8>,
    policy: DecodePolicy,
    corrupt: bool,
    fed: Ghost<Seq<u8>>,
    tainted: Ghost<bool>,
}

impl Utf8Decoder {
    /// All raw bytes fed so far.
    pub closed spec fn fed(self) -> Seq<u8> {
        self.fed@
    }

    /// The prefix of the fed bytes decoded so far, as whole characters.
    pub open spec fn decoded(self) -> Seq<u8> {
        self.fed().subrange(0, scan_len(self.fed()))
    }

    /// Whether the decoder has departed from plain hold-back decoding:
    /// bytes were skipped, or the stream was declared corrupt.
    pub closed spec fn tainted(self) -> bool {
        self.tainted@
    }

    /// The configured policy on malformed bytes.
    pub closed spec fn spec_policy(self) -> DecodePolicy {
        self.policy
    }

    /// Validity: the held-back bytes are at most one character's worth, and
    /// an untainted decoder holds back exactly the fed bytes after the last
    /// whole character.
    pub closed spec fn wf(self) -> bool {
        &&& self.leftover@.len() <= 3
        &&& (!self.tainted@ ==> {
            &&& !self.corrupt
            &&& self.leftover@ == self.fed@.subrange(scan_len(self.fed@), self.fed@.len() as int)
        })
    }

    pub fn new(policy: DecodePolicy) -> (r: Self)
        ensures
            r.wf(),
            r.fed() == Seq::<u8>::empty(),
            !r.tainted(),
            r.spec_policy() == policy,
    {
        let r = Utf8Decoder {
            leftover: Vec::new(),
            policy,
            corrupt: false,
            fed: Ghost(Seq::empty()),
            tainted: Ghost(false),
        };
        proof {
            assert(r.leftover@ =~= r.fed@.subrange(scan_len(r.fed@), r.fed@.len() as int));
        }
        r
    }

    /// Feeds one block; on success returns the newly decoded bytes, the
    /// characters this block completed, in order.
    #[verifier::loop_isolation(false)]
    #[verifier::rlimit(60)]
    pub fn feed(&mut self, block: &Vec<u8>) -> (r: Result<Vec<u8>, ChunkingError>)
        requires
            old(self).wf(),
        ensures
            final(self).wf(),
            final(self).fed() == old(self).fed() + block@,
            final(self).spec_policy() == old(self).spec_policy(),
            old(self).tainted() ==> final(self).tainted(),
            (!old(self).tainted() && clean_prefix(old(self).fed() + block@))
                ==> !final(self).tainted(),
            !final(self).tainted() ==> match r {
                Ok(o) => {
                    &&& o@ == final(self).decoded().subrange(
                        old(self).decoded().len() as int,
                        final(self).decoded().len() as int,
                    )
                    &&& old(self).decoded().len() <= final(self).decoded().len()
                },
                Err(_) => false,
            },
            match r {
                Ok(o) => valid_utf8(o@),
                Err(e) => e == ChunkingError::Unknown,
            },
    {
        proof {
            lemma_scan_len_valid(old(self).fed());
        }
        if self.corrupt {
            proof {
                self.fed@ = self.fed@ + block@;
            }
            return Err(ChunkingError::Unknown);
        }
        let mut pending = crate::bytes_chunker::copy_range(&self.leftover, 0, self.leftover.len());
        let mut blk = crate::bytes_chunker::copy_range(block, 0, block.len());
        pending.append(&mut blk);
        self.leftover = Vec::new();
        proof {
            self.fed@ = self.fed@ + block@;
        }
        let ghost fed2 = self.fed@;
        proof {
            lemma_scan_len_valid(fed2);
            if !old(self).tainted() {
                assert(pending@ =~= old(self).fed().subrange(
                    scan_len(old(self).fed()),
                    old(self).fed().len() as int,
                ) + block@);
                lemma_scan_len_append(old(self).fed(), block@);
                assert(scan_len(fed2) == scan_len(old(self).fed()) + scan_len(pending@));
            }
        }

        let mut out: Vec<u8> = Vec::new();
        let mut pos: usize = 0;
        let ghost mut skipped: bool = false;
        loop
            invariant
                pos <= pending@.len(),
                valid_utf8(out@),
                self.fed@ == fed2,
                self.leftover@.len() == 0,
                !self.corrupt,
                self.tainted@ == old(self).tainted(),
                self.policy == old(self).policy,
                !skipped ==> pos == 0 && out@ == Seq::<u8>::empty(),
                (!old(self).tainted() && clean_prefix(fed2)) ==> !skipped,
            decreases pending@.len() - pos,
        {
            let k = utf8_scan(&pending, pos);
            let pending_len = pending.len();
            assert(pos + k <= pending_len);
            let ghost sp = pending@.subrange(pos as int, pending@.len() as int);
            proof {
                lemma_scan_len_valid(sp);
            }
            let mut piece = crate::bytes_chunker::copy_range(&pending, pos, pos + k);
            proof {
                assert(piece@ =~= sp.subrange(0, scan_len(sp)));
                valid_utf8_concat(out@, piece@);
            }
            out.append(&mut piece);
            let rest = pos + k;
            let ghost tail = pending@.subrange(rest as int, pending@.len() as int);
            proof {
                assert(tail =~= sp.subrange(scan_len(sp), sp.len() as int));
            }
            if rest >= pending.len() {
                proof {
                    self.tainted@ = self.tainted@ || skipped;
                    if !self.tainted@ {
                        assert(pos == 0);
                        assert(pending@.subrange(0, pending@.len() as int) =~= pending@);
                        assert(scan_len(fed2) == scan_len(old(self).fed()) + k);
                        assert(scan_len(fed2) == fed2.len());
                        assert(self.leftover@ =~= fed2.subrange(scan_len(fed2), fed2.len() as int));
                        assert(out@ =~= fed2.subrange(scan_len(fed2), fed2.len() as int).subrange(
                            0,
                            0,
                        ) + pending@.subrange(0, k as int));
                        assert(out@ =~= fed2.subrange(
                            0,
                            scan_len(fed2),
                        ).subrange(old(self).decoded().len() as int, scan_len(fed2)));
                    }
                }
                return Ok(out);
            }
            if is_incomplete_suffix(&pending, rest) {
                self.leftover = crate::bytes_chunker::copy_range(&pending, rest, pending.len());
                proof {
                    self.tainted@ = self.tainted@ || skipped;
                    if !self.tainted@ {
                        assert(pos == 0);
                        assert(pending@.subrange(0, pending@.len() as int) =~= pending@);
                        assert(scan_len(fed2) == scan_len(old(self).fed()) + k);
                        assert(self.leftover@ =~= fed2.subrange(scan_len(fed2), fed2.len() as int));
                        assert(out@ =~= fed2.subrange(
                            0,
                            scan_len(fed2),
                        ).subrange(old(self).decoded().len() as int, scan_len(fed2)));
                    }
                }
                return Ok(out);
            }
            // a byte that can never begin a character
            proof {
                if !old(self).tainted() && !skipped {
                    // the stream up to here cannot be a prefix of valid
                    // UTF-8: the fed bytes are not clean
                    assert(pos == 0);
                    assert(pending@.subrange(0, pending@.len() as int) =~= pending@);
                    assert(scan_len(fed2) == scan_len(old(self).fed()) + k);
                    assert(pending@ =~= fed2.subrange(
                        scan_len(old(self).fed()),
                        fed2.len() as int,
                    ));
                    assert(tail =~= fed2.subrange(scan_len(fed2), fed2.len() as int));
                    assert(!clean_prefix(fed2));
                }
            }
            match self.policy {
                DecodePolicy::StrictFail => {
                    self.corrupt = true;
                    proof {
                        self.tainted@ = true;
                    }
                    return Err(ChunkingError::Unknown);
                },
                DecodePolicy::BestEffortSkip => {
                    proof {
                        skipped = true;
                    }
                    pos = rest + 1;
                },
            }
        }
    }

}

} // verus!

