//! Run-length codec: the compressed stream is a flat sequence of
//! `(byte, count)` pairs, counts in 1..=255, a run longer than 255
//! split across several pairs, so the round trip is lossless for every
//! input.

use vstd::prelude::*;

verus! {

/// Length of the run of bytes equal to `s[i]` that starts at `i`, counted
/// on from a partial count `count` and capped at 255.
pub open spec fn rle_run_len(s: Seq<u8>, i: int, count: int) -> int
    decreases 255 - count,
{
    if count < 255 && i + count < s.len() && s[i + count] == s[i] {
        rle_run_len(s, i, count + 1)
    } else {
        count
    }
}

pub proof fn lemma_rle_run_len_from(s: Seq<u8>, i: int, count: int)
    requires
        0 <= i < s.len(),
        1 <= count <= 255,
        i + count <= s.len(),
    ensures
        ({
            let r = rle_run_len(s, i, count);
            &&& count <= r <= 255
            &&& i + r <= s.len()
            &&& forall|m: int| count <= m < r ==> #[trigger] s[i + m] == s[i]
        }),
    decreases 255 - count,
{
    if count < 255 && i + count < s.len() && s[i + count] == s[i] {
        lemma_rle_run_len_from(s, i, count + 1);
    }
}

/// The run starting at a valid position is between 1 and 255 bytes long,
/// stays inside the buffer, and repeats the first byte throughout.
pub proof fn lemma_rle_run_len(s: Seq<u8>, i: int)
    requires
        0 <= i < s.len(),
    ensures
        ({
            let r = rle_run_len(s, i, 1);
            &&& 1 <= r <= 255
            &&& i + r <= s.len()
            &&& forall|m: int| 0 <= m < r ==> #[trigger] s[i + m] == s[i]
        }),
{
    lemma_rle_run_len_from(s, i, 1);
}

/// The `(byte, count)` encoding of `s` from position `i` on: each maximal
/// run, split at 255, becomes the run's byte followed by its length.
pub open spec fn rle_encode_from(s: Seq<u8>, i: int) -> Seq<u8>
    decreases s.len() - i,
        via rle_encode_from_decreases
{
    if !(0 <= i < s.len()) {
        Seq::empty()
    } else {
        let c = rle_run_len(s, i, 1);
        seq![s[i], c as u8] + rle_encode_from(s, i + c)
    }
}

#[via_fn]
proof fn rle_encode_from_decreases(s: Seq<u8>, i: int) {
    if 0 <= i < s.len() {
        lemma_rle_run_len(s, i);
    }
}

pub open spec fn rle_encode(s: Seq<u8>) -> Seq<u8> {
    rle_encode_from(s, 0)
}

/// The decoding of a `(byte, count)` stream: each pair in order appends
/// `count` copies of `byte`; a trailing lone byte is dropped.
pub open spec fn rle_decode(t: Seq<u8>) -> Seq<u8>
    decreases t.len(),
{
    if t.len() < 2 {
        Seq::empty()
    } else {
        Seq::new(t[1] as nat, |k: int| t[0]) + rle_decode(t.skip(2))
    }
}

/// Run-length encode `data` as `(byte, count)` pairs, counts in 1..=255,
/// runs longer than 255 split across several pairs.
pub fn compress_rle(data: &[u8]) -> (result: Vec<u8>)
    ensures
        result@ == rle_encode(data@),
{
    let mut result: Vec<u8> = Vec::new();
    let mut i: usize = 0;
    while i < data.len()
        invariant
            i <= data@.len(),
            rle_encode(data@) == result@ + rle_encode_from(data@, i as int),
        decreases data@.len() - i,
    {
        let ghost i0 = i as int;
        let ghost res0 = result@;
        let byte = data[i];
        let mut count: usize = 1;
        while count < 255 && count < data.len() - i && data[i + count] == byte
            invariant
                0 <= i < data@.len(),
                1 <= count <= 255,
                i + count <= data@.len(),
                byte == data@[i as int],
                rle_run_len(data@, i as int, count as int) == rle_run_len(data@, i as int, 1),
            decreases 255 - count,
        {
            count = count + 1;
        }
        proof {
            assert(rle_run_len(data@, i0, count as int) == count as int);
            lemma_rle_run_len(data@, i0);
        }
        result.push(byte);
        result.push(count as u8);
        i = i + count;
        proof {
            assert(rle_encode_from(data@, i0)
                == seq![byte, count as u8] + rle_encode_from(data@, i as int));
            assert(result@ =~= res0 + seq![byte, count as u8]);
            assert(res0 + (seq![byte, count as u8] + rle_encode_from(data@, i as int))
                =~= (res0 + seq![byte, count as u8]) + rle_encode_from(data@, i as int));
        }
    }
    result
}

/// Decode a `(byte, count)` stream, appending each byte `count` times;
/// stops once fewer than two bytes remain.
pub fn decompress_rle(data: &[u8]) -> (result: Vec<u8>)
    ensures
        result@ == rle_decode(data@),
{
    let mut result: Vec<u8> = Vec::new();
    let mut i: usize = 0;
    proof {
        assert(data@.skip(0) =~= data@);
        assert(Seq::<u8>::empty() + rle_decode(data@) =~= rle_decode(data@));
    }
    while data.len() - i > 1
        invariant
            i <= data@.len(),
            rle_decode(data@) == result@ + rle_decode(data@.skip(i as int)),
        decreases data@.len() - i,
    {
        let ghost i0 = i as int;
        let ghost res0 = result@;
        let byte = data[i];
        let count = data[i + 1];
        let mut k: usize = 0;
        while k < count as usize
            invariant
                k <= count as usize,
                result@ == res0 + Seq::new(k as nat, |t: int| byte),
            decreases count as int - k,
        {
            result.push(byte);
            k = k + 1;
            proof {
                assert(result@ =~= res0 + Seq::new(k as nat, |t: int| byte));
            }
        }
        i = i + 2;
        proof {
            let t = data@.skip(i0);
            assert(t.len() >= 2);
            assert(t[0] == byte);
            assert(t[1] == count);
            assert(t.skip(2) =~= data@.skip(i as int));
            assert(Seq::new(t[1] as nat, |k: int| t[0]) =~= Seq::new(count as nat, |t: int| byte));
            assert(rle_decode(t) == Seq::new(count as nat, |t: int| byte) + rle_decode(data@.skip(i as int)));
            assert(res0 + (Seq::new(count as nat, |t: int| byte) + rle_decode(data@.skip(i as int)))
                =~= (res0 + Seq::new(count as nat, |t: int| byte)) + rle_decode(data@.skip(i as int)));
        }
    }
    proof {
        assert(rle_decode(data@.skip(i as int)) =~= Seq::<u8>::empty());
        assert(result@ + Seq::<u8>::empty() =~= result@);
        assert(data@.skip(0) =~= data@);
    }
    result
}

/// Law: decoding inverts encoding.  Proved from position `i` on: the
/// decoded tail equals the not-yet-encoded suffix of the source.
proof fn lemma_rle_round_trip_from(s: Seq<u8>, i: int)
    requires
        0 <= i <= s.len(),
    ensures
        rle_decode(rle_encode_from(s, i)) == s.skip(i),
    decreases s.len() - i,
{
    if i >= s.len() {
        assert(rle_encode_from(s, i) == Seq::<u8>::empty());
        assert(rle_decode(Seq::<u8>::empty()) == Seq::<u8>::empty());
        assert(s.skip(i) =~= Seq::<u8>::empty());
    } else {
        lemma_rle_run_len(s, i);
        let c = rle_run_len(s, i, 1);
        let enc = rle_encode_from(s, i);
        lemma_rle_round_trip_from(s, i + c);
        assert(enc == seq![s[i], c as u8] + rle_encode_from(s, i + c));
        assert(enc.len() >= 2);
        assert(enc[0] == s[i]);
        assert(enc[1] == c as u8);
        assert(enc.skip(2) =~= rle_encode_from(s, i + c));
        assert(enc[1] as nat == c as nat);
        assert forall|k: int| 0 <= k < c implies #[trigger] s.subrange(i, i + c)[k] == s[i] by {
            assert(s[i + k] == s[i]);
        }
        assert(Seq::new(enc[1] as nat, |k: int| enc[0]) =~= s.subrange(i, i + c));
        assert(rle_decode(enc) == s.subrange(i, i + c) + s.skip(i + c));
        assert(s.subrange(i, i + c) + s.skip(i + c) =~= s.skip(i));
    }
}

/// Law: for every byte sequence, `(byte, count)` encoding followed by
/// decoding returns the original sequence.
pub proof fn lemma_rle_round_trip(s: Seq<u8>)
    ensures
        rle_decode(rle_encode(s)) == s,
{
    lemma_rle_round_trip_from(s, 0);
    assert(s.skip(0) =~= s);
}

/// Law: a `(byte, count)` stream of whole pairs decodes the same after a
/// trailing partial pair is appended: the lone byte is ignored.
pub proof fn lemma_rle_truncation(t: Seq<u8>, b: u8)
    requires
        t.len() % 2 == 0,
    ensures
        rle_decode(t.push(b)) == rle_decode(t),
    decreases t.len(),
{
    if t.len() == 0 {
        assert(t.push(b).len() == 1);
    } else {
        assert(t.len() >= 2);
        lemma_rle_truncation(t.skip(2), b);
        let u = t.push(b);
        assert(u[0] == t[0]);
        assert(u[1] == t[1]);
        assert(u.skip(2) =~= t.skip(2).push(b));
        assert(Seq::new(u[1] as nat, |k: int| u[0]) =~= Seq::new(t[1] as nat, |k: int| t[0]));
    }
}

} // verus!
