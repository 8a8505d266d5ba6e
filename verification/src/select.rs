//! Algorithm selection from a file-name extension: text-like files get
//! run-length coding, binary-like ones the Lempel-Ziv codec, and
//! anything unknown falls back to run-length coding.

use vstd::prelude::*;

verus! {

#[derive(Clone, Copy, Debug, PartialEq, Eq, Structural)]
pub enum Algorithm {
    Rle,
    Lz,
}

/// ASCII lower-casing of one byte.
pub open spec fn ascii_lower(b: u8) -> u8 {
    if 65 <= b <= 90 {
        (b + 32) as u8
    } else {
        b
    }
}

pub open spec fn lower_seq(s: Seq<u8>) -> Seq<u8> {
    Seq::new(s.len(), |i: int| ascii_lower(s[i]))
}

/// The extensions picked for the Lempel-Ziv codec, as ASCII bytes.
pub open spec fn is_lz_extension(e: Seq<u8>) -> bool {
    ||| e == seq![112u8, 100u8, 102u8]  // pdf
    ||| e == seq![100u8, 111u8, 99u8]  // doc
    ||| e == seq![100u8, 111u8, 99u8, 120u8]  // docx
    ||| e == seq![122u8, 105u8, 112u8]  // zip
    ||| e == seq![101u8, 120u8, 101u8]  // exe
    ||| e == seq![106u8, 112u8, 103u8]  // jpg
    ||| e == seq![112u8, 110u8, 103u8]  // png
    ||| e == seq![103u8, 105u8, 102u8]  // gif
}

/// The algorithm chosen for an extension, compared without regard to
/// ASCII case: the binary-like extensions select Lempel-Ziv; the
/// text-like ones (txt, json, xml, html, css, js, md), like every
/// unknown extension, select run-length coding.
pub open spec fn algorithm_for(ext: Seq<u8>) -> Algorithm {
    if is_lz_extension(lower_seq(ext)) {
        Algorithm::Lz
    } else {
        Algorithm::Rle
    }
}

/// ASCII lower-casing of a byte string.
fn to_ascii_lower(s: &[u8]) -> (result: Vec<u8>)
    ensures
        result@ == lower_seq(s@),
{
    let mut result: Vec<u8> = Vec::new();
    let mut i: usize = 0;
    while i < s.len()
        invariant
            i <= s@.len(),
            result@ == lower_seq(s@).take(i as int),
        decreases s@.len() - i,
    {
        let b = s[i];
        if 65 <= b && b <= 90 {
            result.push(b + 32);
        } else {
            result.push(b);
        }
        i = i + 1;
        proof {
            assert(result@ =~= lower_seq(s@).take(i as int));
        }
    }
    proof {
        assert(lower_seq(s@).take(i as int) =~= lower_seq(s@));
    }
    result
}

fn eq3(e: &Vec<u8>, a: u8, b: u8, c: u8) -> (r: bool)
    ensures
        r == (e@ == seq![a, b, c]),
{
    let r = e.len() == 3 && e[0] == a && e[1] == b && e[2] == c;
    proof {
        if r {
            assert(e@ =~= seq![a, b, c]);
        }
    }
    r
}

fn eq4(e: &Vec<u8>, a: u8, b: u8, c: u8, d: u8) -> (r: bool)
    ensures
        r == (e@ == seq![a, b, c, d]),
{
    let r = e.len() == 4 && e[0] == a && e[1] == b && e[2] == c && e[3] == d;
    proof {
        if r {
            assert(e@ =~= seq![a, b, c, d]);
        }
    }
    r
}

/// Pick a codec from a file-name extension (the part after the last
/// dot, without the dot), case-insensitively.
pub fn detect_algorithm(ext: &[u8]) -> (algorithm: Algorithm)
    ensures
        algorithm == algorithm_for(ext@),
{
    let e = to_ascii_lower(ext);
    let lz = eq3(&e, 112, 100, 102)  // pdf
         || eq3(&e, 100, 111, 99)  // doc
        || eq4(&e, 100, 111, 99, 120)  // docx
        || eq3(&e, 122, 105, 112)  // zip
        || eq3(&e, 101, 120, 101)  // exe
        || eq3(&e, 106, 112, 103)  // jpg
        || eq3(&e, 112, 110, 103)  // png
        || eq3(&e, 103, 105, 102);  // gif
    if lz {
        Algorithm::Lz
    } else {
        Algorithm::Rle
    }
}

} // verus!
