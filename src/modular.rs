//! Canonical reduction of integers into the range `[0, q)`.
use vstd::prelude::*;
use vstd::arithmetic::div_mod::*;

verus! {

/// The canonical residue of `x` modulo a positive `q`, always in `[0, q)`.
pub open spec fn modq(x: int, q: int) -> int
    recommends
        q > 0,
{
    x % q
}

/// Reduces `x` into `[0, q)`, also for negative `x`.
pub fn reduce_mod(x: i64, q: i64) -> (r: i64)
    requires
        q > 0,
    ensures
        r == modq(x as int, q as int),
        0 <= r < q,
{
    match x.checked_rem_euclid(q) {
        Some(r) => r,
        None => 0,
    }
}

/// `(x + y) mod q` for residues `x` and `y`, without overflow.
pub fn add_mod(x: i64, y: i64, q: i64) -> (r: i64)
    requires
        0 <= x < q,
        0 <= y < q,
    ensures
        r == modq(x + y, q as int),
        0 <= r < q,
{
    if x >= q - y {
        let r = x - (q - y);
        proof {
            lemma_fundamental_div_mod_converse(x + y, q as int, 1, r as int);
        }
        r
    } else {
        proof {
            lemma_small_mod((x + y) as nat, q as nat);
        }
        x + y
    }
}

/// `(x - y) mod q` for residues `x` and `y`.
pub fn sub_mod(x: i64, y: i64, q: i64) -> (r: i64)
    requires
        0 <= x < q,
        0 <= y < q,
    ensures
        r == modq(x - y, q as int),
        0 <= r < q,
{
    if x >= y {
        proof {
            lemma_small_mod((x - y) as nat, q as nat);
        }
        x - y
    } else {
        let r = x + (q - y);
        proof {
            lemma_fundamental_div_mod_converse(x - y, q as int, -1, r as int);
        }
        r
    }
}

} // verus!
