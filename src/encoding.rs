//! Encoding bits as multiples of `floor(q / 2)` and decoding them again by
//! thresholding at a quarter of the modulus.
use vstd::prelude::*;
use vstd::arithmetic::div_mod::*;
use crate::modular::modq;

verus! {

/// Every entry is a bit.
pub open spec fn bits(v: Seq<i64>) -> bool {
    forall|i: int| 0 <= i < v.len() ==> (#[trigger] v[i] == 0 || v[i] == 1)
}

/// The bit that a residue of `v` stands for: zero when `v` is within `q / 4`
/// of a multiple of `q` (in either direction), one otherwise.
pub open spec fn decode_bit(v: int, q: int) -> int {
    let d = modq(v, q);
    if d <= q / 4 || q - d <= q / 4 {
        0
    } else {
        1
    }
}

/// Noise strictly below this magnitude never changes a decoded bit.
pub open spec fn margin(q: int) -> int {
    q / 2 - q / 4
}

/// The bit that the residue `d` in `[0, q)` stands for.
pub fn threshold_bit(d: i64, q: i64) -> (r: i64)
    requires
        0 <= d < q,
    ensures
        r == decode_bit(d as int, q as int),
        r == 0 || r == 1,
{
    proof {
        lemma_small_mod(d as nat, q as nat);
    }
    if d <= q / 4 || q - d <= q / 4 {
        0
    } else {
        1
    }
}

/// Decoding is correct under bounded noise: for every bit and every noise
/// value of magnitude below `margin(q)`, the encoding `bit * floor(q / 2)`
/// plus the noise decodes to the bit.
pub proof fn lemma_decode_noisy_bit(bit: int, e: int, q: int)
    requires
        bit == 0 || bit == 1,
        q > 0,
        -margin(q) < e < margin(q),
    ensures
        decode_bit(bit * (q / 2) + e, q) == bit,
{
    let h = q / 2;
    let f = q / 4;
    if bit == 0 {
        assert(bit * h == 0);
        if e >= 0 {
            lemma_small_mod(e as nat, q as nat);
        } else {
            lemma_fundamental_div_mod_converse(e, q, -1, q + e);
        }
    } else {
        assert(bit * h == h);
        lemma_small_mod((h + e) as nat, q as nat);
    }
}

} // verus!
