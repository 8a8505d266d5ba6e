//! Sliding-window Lempel-Ziv codec.
//!
//! The compressed form is a flat token stream.  Every token starts with a
//! one-byte tag: `0x00` is followed by one literal byte, `0x01` by an
//! `(offset, length)` pair instructing the decoder to copy `length` bytes
//! starting `offset` positions back in the output produced so far.  The
//! encoder searches a trailing window of at most `LZ_WINDOW_SIZE` bytes
//! for the longest match, keeps the first of equally long ones, and emits
//! a match token only when at least three bytes match.

use vstd::prelude::*;

verus! {

/// Number of already-scanned bytes the encoder may search for a match.
pub const LZ_WINDOW_SIZE: usize = 20;

/// Length of the match between window position `j` and current position
/// `i`, counted on from a partial length `k`.  A match may not read at or
/// past `i` on the window side, may not read past the end of the buffer,
/// and is capped at 255 so that it fits a byte.
pub open spec fn match_len_from(s: Seq<u8>, j: int, i: int, k: int) -> int
    decreases 255 - k,
{
    if k < 255 && i + k < s.len() && j + k < i && s[j + k] == s[i + k] {
        match_len_from(s, j, i, k + 1)
    } else {
        k
    }
}

pub open spec fn match_len(s: Seq<u8>, j: int, i: int) -> int {
    match_len_from(s, j, i, 0)
}

proof fn lemma_match_len_from(s: Seq<u8>, j: int, i: int, k: int)
    requires
        0 <= k <= 255,
    ensures
        ({
            let r = match_len_from(s, j, i, k);
            &&& k <= r <= 255
            &&& r > k ==> i + r <= s.len() && j + r <= i
            &&& forall|m: int| k <= m < r ==> #[trigger] s[j + m] == s[i + m]
        }),
    decreases 255 - k,
{
    if k < 255 && i + k < s.len() && j + k < i && s[j + k] == s[i + k] {
        lemma_match_len_from(s, j, i, k + 1);
    }
}

/// A match length is bounded by 255, by the distance `i - j`, and by the
/// remaining buffer, and the matched bytes agree pairwise.
pub proof fn lemma_match_len(s: Seq<u8>, j: int, i: int)
    requires
        0 <= j <= i <= s.len(),
    ensures
        ({
            let r = match_len(s, j, i);
            &&& 0 <= r <= 255
            &&& r <= i - j
            &&& i + r <= s.len()
            &&& forall|m: int| 0 <= m < r ==> #[trigger] s[j + m] == s[i + m]
        }),
{
    lemma_match_len_from(s, j, i, 0);
}

/// Best `(offset, length)` among window positions `j` in `[start, j_end)`,
/// scanning left to right and replacing the best found so far only on a
/// strictly longer match, so the first of equally long matches wins.
pub open spec fn best_match_upto(s: Seq<u8>, start: int, i: int, j_end: int) -> (int, int)
    decreases j_end - start,
{
    if j_end <= start {
        (0, 0)
    } else {
        let prev = best_match_upto(s, start, i, j_end - 1);
        let ml = match_len(s, j_end - 1, i);
        if ml > prev.1 {
            (i - (j_end - 1), ml)
        } else {
            prev
        }
    }
}

pub open spec fn window_start(i: int) -> int {
    if i > LZ_WINDOW_SIZE as int {
        i - LZ_WINDOW_SIZE as int
    } else {
        0
    }
}

/// Best `(offset, length)` over the whole window before position `i`.
pub open spec fn best_match(s: Seq<u8>, i: int) -> (int, int) {
    best_match_upto(s, window_start(i), i, i)
}

pub proof fn lemma_best_match_upto(s: Seq<u8>, start: int, i: int, j_end: int)
    requires
        0 <= start <= j_end <= i <= s.len(),
    ensures
        ({
            let (off, l) = best_match_upto(s, start, i, j_end);
            &&& 0 <= l <= 255
            &&& i + l <= s.len()
            &&& (l == 0 ==> off == 0)
            &&& (l > 0 ==> 1 <= off <= i - start && l <= off)
            &&& (l > 0 ==> exists|j: int|
                start <= j < j_end && off == i - j && l == #[trigger] match_len(s, j, i))
        }),
    decreases j_end - start,
{
    if j_end <= start {
    } else {
        lemma_best_match_upto(s, start, i, j_end - 1);
        lemma_match_len(s, j_end - 1, i);
        let prev = best_match_upto(s, start, i, j_end - 1);
        let ml = match_len(s, j_end - 1, i);
        if ml > prev.1 {
            assert(start <= j_end - 1 < j_end && i - (j_end - 1) == i - (j_end - 1)
                && ml == match_len(s, j_end - 1, i));
        }
    }
}

/// The best window match at a valid position: its length fits the buffer
/// and a byte, its offset is in `[1, LZ_WINDOW_SIZE]`, never exceeds the
/// position, and is at least the length, and some window position
/// realises it.
pub proof fn lemma_best_match(s: Seq<u8>, i: int)
    requires
        0 <= i < s.len(),
    ensures
        ({
            let (off, l) = best_match(s, i);
            &&& 0 <= l <= 255
            &&& i + l <= s.len()
            &&& (l == 0 ==> off == 0)
            &&& (l > 0 ==> 1 <= off <= LZ_WINDOW_SIZE as int && off <= i && l <= off)
            &&& (l > 0 ==> exists|j: int|
                window_start(i) <= j < i && off == i - j && l == #[trigger] match_len(s, j, i))
        }),
{
    lemma_best_match_upto(s, window_start(i), i, i);
}

/// The token stream the encoder produces for `s` from position `i` on:
/// a match token where the best window match is at least three bytes
/// long, else a literal token for one byte.
pub open spec fn lz_encode_from(s: Seq<u8>, i: int) -> Seq<u8>
    decreases s.len() - i,
        via lz_encode_from_decreases
{
    if !(0 <= i < s.len()) {
        Seq::empty()
    } else {
        let (off, l) = best_match(s, i);
        if l >= 3 {
            seq![0x01u8, off as u8, l as u8] + lz_encode_from(s, i + l)
        } else {
            seq![0x00u8, s[i]] + lz_encode_from(s, i + 1)
        }
    }
}

#[via_fn]
proof fn lz_encode_from_decreases(s: Seq<u8>, i: int) {
    if 0 <= i < s.len() {
        lemma_best_match(s, i);
    }
}

pub open spec fn lz_encode(s: Seq<u8>) -> Seq<u8> {
    lz_encode_from(s, 0)
}

/// Compress `data` into the tagged literal/match token stream, searching
/// a window of at most `LZ_WINDOW_SIZE` bytes, taking the first longest
/// match and encoding it only when at least three bytes long.
pub fn compress_lz(data: &[u8]) -> (result: Vec<u8>)
    ensures
        result@ == lz_encode(data@),
{
    let mut result: Vec<u8> = Vec::new();
    let mut i: usize = 0;
    while i < data.len()
        invariant
            i <= data@.len(),
            lz_encode(data@) == result@ + lz_encode_from(data@, i as int),
        decreases data@.len() - i,
    {
        let ghost i0 = i as int;
        let ghost res0 = result@;
        let start = if i > LZ_WINDOW_SIZE {
            i - LZ_WINDOW_SIZE
        } else {
            0
        };
        let mut offset: usize = 0;
        let mut length: usize = 0;
        let mut j: usize = start;
        proof {
            assert(start as int == window_start(i0));
        }
        while j < i
            invariant
                0 <= start <= j <= i,
                i < data@.len(),
                offset as int == best_match_upto(data@, start as int, i as int, j as int).0,
                length as int == best_match_upto(data@, start as int, i as int, j as int).1,
                offset <= i,
                length <= 255,
            decreases i - j,
        {
            let mut mlen: usize = 0;
            while mlen < 255 && mlen < data.len() - i && mlen < i - j && data[j + mlen] == data[i + mlen]
                invariant
                    0 <= j < i,
                    i < data@.len(),
                    mlen <= 255,
                    j + mlen <= i,
                    match_len_from(data@, j as int, i as int, mlen as int)
                        == match_len(data@, j as int, i as int),
                decreases 255 - mlen,
            {
                mlen = mlen + 1;
            }
            proof {
                assert(match_len_from(data@, j as int, i as int, mlen as int) == mlen as int);
                lemma_match_len(data@, j as int, i as int);
            }
            if mlen > length {
                offset = i - j;
                length = mlen;
            }
            j = j + 1;
        }
        proof {
            assert((offset as int, length as int) =~= best_match(data@, i0));
            lemma_best_match(data@, i0);
        }
        if length >= 3 {
            result.push(0x01);
            result.push(offset as u8);
            result.push(length as u8);
            i = i + length;
            proof {
                assert(lz_encode_from(data@, i0)
                    == seq![0x01u8, (offset as int) as u8, (length as int) as u8]
                        + lz_encode_from(data@, i as int));
                assert(result@ =~= res0 + seq![0x01u8, offset as u8, length as u8]);
                assert(res0 + (seq![0x01u8, offset as u8, length as u8] + lz_encode_from(data@, i as int))
                    =~= (res0 + seq![0x01u8, offset as u8, length as u8]) + lz_encode_from(data@, i as int));
            }
        } else {
            result.push(0x00);
            result.push(data[i]);
            i = i + 1;
            proof {
                assert(lz_encode_from(data@, i0)
                    == seq![0x00u8, data@[i0]] + lz_encode_from(data@, i as int));
                assert(result@ =~= res0 + seq![0x00u8, data@[i0]]);
                assert(res0 + (seq![0x00u8, data@[i0]] + lz_encode_from(data@, i as int))
                    =~= (res0 + seq![0x00u8, data@[i0]]) + lz_encode_from(data@, i as int));
            }
        }
    }
    result
}

/// Self-referential copy: append `length` bytes to `out`, read one at a
/// time from position `start` on of the growing sequence, so a length
/// beyond the end of `out` replays bytes appended by the copy itself.
pub open spec fn lz_copy(out: Seq<u8>, start: int, length: int) -> Seq<u8>
    decreases length,
{
    if length <= 0 {
        out
    } else {
        let prev = lz_copy(out, start, length - 1);
        prev.push(prev[start + length - 1])
    }
}

/// The decoding of token stream `t` appended to already-produced `out`.
/// A literal token appends its byte.  A match token copies `length`
/// bytes from `offset` back, the start clamped to the front of the
/// output, and copies nothing when it points at or past the end.  An
/// unknown tag or a truncated token ends the stream.
pub open spec fn lz_decode_from(t: Seq<u8>, out: Seq<u8>) -> Seq<u8>
    decreases t.len(),
{
    if t.len() == 0 {
        out
    } else if t[0] == 0x00u8 {
        if t.len() >= 2 {
            lz_decode_from(t.skip(2), out.push(t[1]))
        } else {
            out
        }
    } else if t[0] == 0x01u8 {
        if t.len() >= 3 {
            let offset = t[1] as int;
            let length = t[2] as int;
            let start = if out.len() >= offset {
                out.len() - offset
            } else {
                0
            };
            let out2 = if start < out.len() {
                lz_copy(out, start, length)
            } else {
                out
            };
            lz_decode_from(t.skip(3), out2)
        } else {
            out
        }
    } else {
        out
    }
}

pub open spec fn lz_decode(t: Seq<u8>) -> Seq<u8> {
    lz_decode_from(t, Seq::empty())
}

/// Decode a tagged literal/match token stream.  Truncated trailing
/// tokens and unknown tags end decoding; what was already produced is
/// returned.
pub fn decompress_lz(data: &[u8]) -> (result: Vec<u8>)
    ensures
        result@ == lz_decode(data@),
{
    let mut result: Vec<u8> = Vec::new();
    let mut i: usize = 0;
    proof {
        assert(data@.skip(0) =~= data@);
    }
    while i < data.len()
        invariant
            i <= data@.len(),
            lz_decode(data@) == lz_decode_from(data@.skip(i as int), result@),
        decreases data@.len() - i,
    {
        let ghost i0 = i as int;
        let ghost t = data@.skip(i0);
        let tag = data[i];
        if tag == 0x00 {
            if data.len() - i > 1 {
                result.push(data[i + 1]);
                i = i + 2;
                proof {
                    assert(t[0] == 0x00u8 && t.len() >= 2 && t[1] == data@[i0 + 1]);
                    assert(t.skip(2) =~= data@.skip(i as int));
                }
            } else {
                // truncated literal token: nothing more can be decoded
                i = data.len();
                proof {
                    assert(lz_decode_from(t, result@) == result@);
                    assert(data@.skip(data@.len() as int) =~= Seq::<u8>::empty());
                }
            }
        } else if tag == 0x01 {
            if data.len() - i > 2 {
                let offset = data[i + 1] as usize;
                let length = data[i + 2] as usize;
                let len0 = result.len();
                let start = if len0 >= offset {
                    len0 - offset
                } else {
                    0
                };
                let ghost out0 = result@;
                if start < len0 {
                    let mut k: usize = 0;
                    while k < length
                        invariant
                            k <= length,
                            start < out0.len(),
                            result@ == lz_copy(out0, start as int, k as int),
                            result@.len() == out0.len() + k,
                        decreases length - k,
                    {
                        let rlen = result.len();
                        proof {
                            assert(start + k < rlen);
                        }
                        let b = result[start + k];
                        result.push(b);
                        k = k + 1;
                        proof {
                            assert(result@ == lz_copy(out0, start as int, k as int));
                        }
                    }
                }
                i = i + 3;
                proof {
                    assert(t[0] == 0x01u8 && t.len() >= 3);
                    assert(t[1] == data@[i0 + 1] && t[2] == data@[i0 + 2]);
                    assert(t[1] as int == offset as int && t[2] as int == length as int);
                    assert(t.skip(3) =~= data@.skip(i as int));
                }
            } else {
                // truncated match token
                i = data.len();
                proof {
                    assert(lz_decode_from(t, result@) == result@);
                    assert(data@.skip(data@.len() as int) =~= Seq::<u8>::empty());
                }
            }
        } else {
            // unknown tag: the stream ends here
            i = data.len();
            proof {
                assert(t[0] != 0x00u8 && t[0] != 0x01u8);
                assert(lz_decode_from(t, result@) == result@);
                assert(data@.skip(data@.len() as int) =~= Seq::<u8>::empty());
            }
        }
    }
    proof {
        assert(data@.skip(i as int) =~= Seq::<u8>::empty());
    }
    result
}

/// A copy that stays before the end of `out` appends exactly the bytes
/// it points at.
proof fn lemma_lz_copy_no_overlap(out: Seq<u8>, start: int, length: int)
    requires
        0 <= start,
        0 <= length,
        start + length <= out.len(),
    ensures
        lz_copy(out, start, length) == out + out.subrange(start, start + length),
    decreases length,
{
    if length <= 0 {
        assert(out + out.subrange(start, start) =~= out);
    } else {
        lemma_lz_copy_no_overlap(out, start, length - 1);
        let prev = lz_copy(out, start, length - 1);
        assert(prev[start + length - 1] == out[start + length - 1]);
        assert(prev.push(out[start + length - 1]) =~= out + out.subrange(start, start + length));
    }
}

/// Decoding the tokens for positions `i` on, after the prefix before `i`
/// has already been produced, rebuilds the whole source.
proof fn lemma_lz_round_trip_from(s: Seq<u8>, i: int)
    requires
        0 <= i <= s.len(),
    ensures
        lz_decode_from(lz_encode_from(s, i), s.take(i)) == s,
    decreases s.len() - i,
{
    if i >= s.len() {
        assert(lz_encode_from(s, i) == Seq::<u8>::empty());
        assert(s.take(i) =~= s);
    } else {
        lemma_best_match(s, i);
        let (off, l) = best_match(s, i);
        let out = s.take(i);
        let t = lz_encode_from(s, i);
        if l >= 3 {
            let rest = lz_encode_from(s, i + l);
            let j = choose|j: int|
                window_start(i) <= j < i && off == i - j && l == #[trigger] match_len(s, j, i);
            lemma_match_len(s, j, i);
            assert(t == seq![0x01u8, off as u8, l as u8] + rest);
            assert(t[0] == 0x01u8 && t.len() >= 3);
            assert(t[1] as int == off && t[2] as int == l);
            assert(out.len() == i && out.len() >= off);
            assert(out.len() - off == j && j < out.len());
            // the match never reads at or past `i`, so the copy stays
            // inside the bytes already produced
            assert(j + l <= i);
            lemma_lz_copy_no_overlap(out, j, l);
            assert forall|m: int| 0 <= m < l implies #[trigger] out.subrange(j, j + l)[m]
                == s.subrange(i, i + l)[m] by {
                assert(s[j + m] == s[i + m]);
            }
            assert(out.subrange(j, j + l) =~= s.subrange(i, i + l));
            assert(lz_copy(out, j, l) =~= s.take(i + l));
            assert(t.skip(3) =~= rest);
            lemma_lz_round_trip_from(s, i + l);
        } else {
            let rest = lz_encode_from(s, i + 1);
            assert(t == seq![0x00u8, s[i]] + rest);
            assert(t[0] == 0x00u8 && t.len() >= 2 && t[1] == s[i]);
            assert(out.push(s[i]) =~= s.take(i + 1));
            assert(t.skip(2) =~= rest);
            lemma_lz_round_trip_from(s, i + 1);
        }
    }
}

/// Law: for every byte sequence, decoding the encoder's token stream
/// returns the original sequence.
pub proof fn lemma_lz_round_trip(s: Seq<u8>)
    ensures
        lz_decode(lz_encode(s)) == s,
{
    lemma_lz_round_trip_from(s, 0);
    assert(s.take(0) =~= Seq::<u8>::empty());
}

proof fn lemma_lz_literal_floor_from(s: Seq<u8>, i: int)
    requires
        0 <= i <= s.len(),
        forall|j: int, i2: int|
            0 <= j < i2 < s.len() && window_start(i2) <= j ==> #[trigger] match_len(s, j, i2) < 3,
    ensures
        lz_encode_from(s, i).len() == 2 * (s.len() - i),
    decreases s.len() - i,
{
    if i < s.len() {
        lemma_best_match(s, i);
        let (off, l) = best_match(s, i);
        if l >= 3 {
            let j = choose|j: int|
                window_start(i) <= j < i && off == i - j && l == #[trigger] match_len(s, j, i);
            assert(match_len(s, j, i) < 3);
            assert(false);
        }
        lemma_lz_literal_floor_from(s, i + 1);
    }
}

/// Law: an input in which no window position matches three or more bytes
/// encodes entirely as literal tokens, two output bytes per input byte.
pub proof fn lemma_lz_literal_floor(s: Seq<u8>)
    requires
        forall|j: int, i: int|
            0 <= j < i < s.len() && window_start(i) <= j ==> #[trigger] match_len(s, j, i) < 3,
    ensures
        lz_encode(s).len() == 2 * s.len(),
{
    lemma_lz_literal_floor_from(s, 0);
}

/// Every match token of `t` carries an offset in `[1, w]` that does not
/// exceed the output length the decoder has reached when it meets the
/// token, `produced` bytes at the front of `t`.
pub open spec fn offsets_bounded(t: Seq<u8>, produced: int, w: int) -> bool
    decreases t.len(),
{
    if t.len() == 0 {
        true
    } else if t[0] == 0x00u8 {
        t.len() < 2 || offsets_bounded(t.skip(2), produced + 1, w)
    } else if t[0] == 0x01u8 {
        t.len() < 3 || (1 <= t[1] as int && t[1] as int <= w && t[1] as int <= produced
            && offsets_bounded(t.skip(3), produced + t[2] as int, w))
    } else {
        true
    }
}

proof fn lemma_lz_window_bound_from(s: Seq<u8>, i: int)
    requires
        0 <= i <= s.len(),
    ensures
        offsets_bounded(lz_encode_from(s, i), i, LZ_WINDOW_SIZE as int),
    decreases s.len() - i,
{
    if i < s.len() {
        lemma_best_match(s, i);
        let (off, l) = best_match(s, i);
        let t = lz_encode_from(s, i);
        if l >= 3 {
            lemma_lz_window_bound_from(s, i + l);
            assert(t[0] == 0x01u8 && t[1] as int == off && t[2] as int == l);
            assert(t.skip(3) =~= lz_encode_from(s, i + l));
        } else {
            lemma_lz_window_bound_from(s, i + 1);
            assert(t[0] == 0x00u8 && t.len() >= 2);
            assert(t.skip(2) =~= lz_encode_from(s, i + 1));
        }
    }
}

/// Law: the encoder never emits a match offset greater than the window
/// size, nor greater than the position the token refers back from.
pub proof fn lemma_lz_window_bound(s: Seq<u8>)
    ensures
        offsets_bounded(lz_encode(s), 0, LZ_WINDOW_SIZE as int),
{
    lemma_lz_window_bound_from(s, 0);
}

/// A stream made only of whole tokens: every tag is known and every
/// token's payload is present.
pub open spec fn complete_stream(t: Seq<u8>) -> bool
    decreases t.len(),
{
    if t.len() == 0 {
        true
    } else if t[0] == 0x00u8 {
        t.len() >= 2 && complete_stream(t.skip(2))
    } else if t[0] == 0x01u8 {
        t.len() >= 3 && complete_stream(t.skip(3))
    } else {
        false
    }
}

proof fn lemma_lz_encode_complete_from(s: Seq<u8>, i: int)
    requires
        0 <= i <= s.len(),
    ensures
        complete_stream(lz_encode_from(s, i)),
    decreases s.len() - i,
{
    if i < s.len() {
        lemma_best_match(s, i);
        let (off, l) = best_match(s, i);
        let t = lz_encode_from(s, i);
        if l >= 3 {
            lemma_lz_encode_complete_from(s, i + l);
            assert(t[0] == 0x01u8 && t.len() >= 3);
            assert(t.skip(3) =~= lz_encode_from(s, i + l));
        } else {
            lemma_lz_encode_complete_from(s, i + 1);
            assert(t[0] == 0x00u8 && t.len() >= 2);
            assert(t.skip(2) =~= lz_encode_from(s, i + 1));
        }
    }
}

/// Law: the encoder only emits whole tokens, so its streams can be cut
/// mid-token and still decode to a prefix of the source.
pub proof fn lemma_lz_encode_complete(s: Seq<u8>)
    ensures
        complete_stream(lz_encode(s)),
{
    lemma_lz_encode_complete_from(s, 0);
}

/// A fragment shorter than the token its tag announces.
pub open spec fn partial_token(f: Seq<u8>) -> bool {
    ||| f.len() == 1 && (f[0] == 0x00u8 || f[0] == 0x01u8)
    ||| f.len() == 2 && f[0] == 0x01u8
}

/// Law: a stream of whole tokens cut off mid-token decodes to exactly
/// what the whole tokens before the cut produce; the trailing fragment
/// is ignored.
pub proof fn lemma_lz_truncation(t: Seq<u8>, f: Seq<u8>, out: Seq<u8>)
    requires
        complete_stream(t),
        partial_token(f),
    ensures
        lz_decode_from(t + f, out) == lz_decode_from(t, out),
    decreases t.len(),
{
    if t.len() == 0 {
        assert(t + f =~= f);
        assert(lz_decode_from(f, out) == out);
    } else if t[0] == 0x00u8 {
        assert((t + f)[0] == 0x00u8 && (t + f).len() >= 2 && (t + f)[1] == t[1]);
        assert((t + f).skip(2) =~= t.skip(2) + f);
        lemma_lz_truncation(t.skip(2), f, out.push(t[1]));
    } else {
        assert(t[0] == 0x01u8 && t.len() >= 3);
        assert((t + f)[0] == 0x01u8 && (t + f).len() >= 3);
        assert((t + f)[1] == t[1] && (t + f)[2] == t[2]);
        assert((t + f).skip(3) =~= t.skip(3) + f);
        let offset = t[1] as int;
        let start = if out.len() >= offset {
            out.len() - offset
        } else {
            0
        };
        let out2 = if start < out.len() {
            lz_copy(out, start, t[2] as int)
        } else {
            out
        };
        lemma_lz_truncation(t.skip(3), f, out2);
    }
}

} // verus!
