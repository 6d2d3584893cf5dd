//! Arithmetic on polynomials given by coefficient vectors (index = degree),
//! and on the quotient ring `Z_q[x] / (x^n + 1)`.
use vstd::prelude::*;
use vstd::arithmetic::div_mod::*;
use crate::sums::{sum, lemma_sum_sub, lemma_sum_zero};
use crate::linalg::{bounded, in_range, lemma_entry_product, LENGTH_LIMIT};
use crate::modular::{modq, reduce_mod, add_mod, sub_mod};

verus! {

/// Coefficient `k` of the product of the polynomials `a` and `b`.
pub open spec fn conv(a: Seq<i64>, b: Seq<i64>, k: int) -> int {
    sum(
        a.len(),
        |i: int|
            if 0 <= k - i < b.len() {
                a[i] as int * b[k - i] as int
            } else {
                0
            },
    )
}

/// The number of coefficients of the product of `a` and `b`.
pub open spec fn product_len(a: Seq<i64>, b: Seq<i64>) -> int {
    if a.len() == 0 || b.len() == 0 {
        0
    } else {
        a.len() + b.len() - 1
    }
}

/// The term that coefficient `j` of `p` contributes to coefficient `k`
/// modulo `x^n + 1`: `x^j == (-1)^(j / n) x^(j % n)`.
pub open spec fn fold_term(p: Seq<i64>, n: int, k: int, j: int) -> int {
    if j % n == k {
        if (j / n) % 2 == 0 {
            p[j] as int
        } else {
            -(p[j] as int)
        }
    } else {
        0
    }
}

/// Coefficient `k` of `p` reduced modulo `x^n + 1`, over the integers.
pub open spec fn fold(p: Seq<i64>, n: int, k: int) -> int {
    sum(p.len(), |j: int| fold_term(p, n, k, j))
}

/// Coefficient `k` of the product of `a` and `b` in `Z[x] / (x^n + 1)`:
/// `x^n` wraps around to `-1`.
pub open spec fn nega(a: Seq<i64>, b: Seq<i64>, n: int, k: int) -> int {
    sum(
        n as nat,
        |i: int|
            if i <= k {
                a[i] as int * b[k - i] as int
            } else {
                -(a[i] as int * b[k - i + n] as int)
            },
    )
}

/// The raw product of two polynomials, of `a.len() + b.len() - 1` coefficients.
pub fn multiply(a: &Vec<i64>, b: &Vec<i64>) -> (r: Vec<i64>)
    requires
        a.len() <= LENGTH_LIMIT,
        b.len() <= LENGTH_LIMIT,
        bounded(a@),
        bounded(b@),
    ensures
        r@.len() == product_len(a@, b@),
        forall|k: int| 0 <= k < r@.len() ==> #[trigger] r@[k] == conv(a@, b@, k),
{
    let len: usize = if a.len() == 0 || b.len() == 0 {
        0
    } else {
        a.len() + b.len() - 1
    };
    let mut out: Vec<i64> = Vec::with_capacity(len);
    let mut k: usize = 0;
    while k < len
        invariant
            k <= len,
            len == product_len(a@, b@),
            a.len() <= LENGTH_LIMIT,
            b.len() <= LENGTH_LIMIT,
            bounded(a@),
            bounded(b@),
            out@.len() == k,
            forall|k2: int| 0 <= k2 < k ==> #[trigger] out@[k2] == conv(a@, b@, k2),
        decreases len - k,
    {
        let mut acc: i64 = 0;
        let mut i: usize = 0;
        while i < a.len()
            invariant
                i <= a.len(),
                a.len() <= LENGTH_LIMIT,
                bounded(a@),
                bounded(b@),
                acc == sum(
                    i as nat,
                    |i2: int|
                        if 0 <= k - i2 < b.len() {
                            a@[i2] as int * b@[k - i2] as int
                        } else {
                            0
                        },
                ),
                -(i * 0x1_0000_0000_0000) <= acc <= i * 0x1_0000_0000_0000,
            decreases a.len() - i,
        {
            if i <= k && k - i < b.len() {
                proof {
                    lemma_entry_product(a@[i as int], b@[k - i]);
                }
                acc = acc + a[i] * b[k - i];
            }
            i = i + 1;
        }
        out.push(acc);
        k = k + 1;
    }
    out
}

/// Reduces `poly` modulo `x^degree + 1` (a coefficient of degree
/// `degree * t + k` adds to coefficient `k` with sign `(-1)^t`), then reduces
/// every coefficient into `[0, modulo)`.
pub fn reduce(poly: &Vec<i64>, degree: usize, modulo: i64) -> (r: Vec<i64>)
    requires
        degree > 0,
        modulo > 0,
    ensures
        r@.len() == degree,
        forall|k: int|
            0 <= k < degree ==> #[trigger] r@[k] == modq(
                fold(poly@, degree as int, k),
                modulo as int,
            ),
        in_range(r@, modulo as int),
{
    let mut out: Vec<i64> = Vec::with_capacity(degree);
    let mut k: usize = 0;
    while k < degree
        invariant
            k <= degree,
            modulo > 0,
            out@.len() == k,
            forall|k2: int|
                0 <= k2 < k ==> #[trigger] out@[k2] == modq(
                    fold(poly@, degree as int, k2),
                    modulo as int,
                ),
            in_range(out@, modulo as int),
        decreases degree - k,
    {
        let mut acc: i64 = 0;
        let mut j: usize = 0;
        proof {
            lemma_small_mod(0, modulo as nat);
        }
        while j < poly.len()
            invariant
                j <= poly.len(),
                k < degree,
                modulo > 0,
                0 <= acc < modulo,
                acc == modq(
                    sum(j as nat, |j2: int| fold_term(poly@, degree as int, k as int, j2)),
                    modulo as int,
                ),
            decreases poly.len() - j,
        {
            let ghost s = sum(j as nat, |j2: int| fold_term(poly@, degree as int, k as int, j2));
            let t = reduce_mod(poly[j], modulo);
            if j % degree == k {
                if (j / degree) % 2 == 0 {
                    proof {
                        lemma_add_mod_noop(s, poly@[j as int] as int, modulo as int);
                    }
                    acc = add_mod(acc, t, modulo);
                } else {
                    proof {
                        lemma_sub_mod_noop(s, poly@[j as int] as int, modulo as int);
                    }
                    acc = sub_mod(acc, t, modulo);
                }
            }
            j = j + 1;
        }
        out.push(acc);
        k = k + 1;
    }
    out
}

/// The product of `a` and `b` in `Z_q[x] / (x^n + 1)`, computed directly.
pub fn poly_mul(a: &Vec<i64>, b: &Vec<i64>, n: usize, q: i64) -> (r: Vec<i64>)
    requires
        a.len() == n,
        b.len() == n,
        n <= LENGTH_LIMIT,
        bounded(a@),
        bounded(b@),
        q > 0,
    ensures
        r@.len() == n,
        forall|k: int| 0 <= k < n ==> #[trigger] r@[k] == modq(nega(a@, b@, n as int, k), q as int),
        in_range(r@, q as int),
{
    let mut out: Vec<i64> = Vec::with_capacity(n);
    let mut k: usize = 0;
    while k < n
        invariant
            k <= n,
            a.len() == n,
            b.len() == n,
            n <= LENGTH_LIMIT,
            bounded(a@),
            bounded(b@),
            q > 0,
            out@.len() == k,
            forall|k2: int|
                0 <= k2 < k ==> #[trigger] out@[k2] == modq(nega(a@, b@, n as int, k2), q as int),
            in_range(out@, q as int),
        decreases n - k,
    {
        let mut acc: i64 = 0;
        let mut i: usize = 0;
        while i < n
            invariant
                i <= n,
                k < n,
                a.len() == n,
                b.len() == n,
                n <= LENGTH_LIMIT,
                bounded(a@),
                bounded(b@),
                acc == sum(
                    i as nat,
                    |i2: int|
                        if i2 <= k {
                            a@[i2] as int * b@[k - i2] as int
                        } else {
                            -(a@[i2] as int * b@[k - i2 + n] as int)
                        },
                ),
                -(i * 0x1_0000_0000_0000) <= acc <= i * 0x1_0000_0000_0000,
            decreases n - i,
        {
            if i <= k {
                proof {
                    lemma_entry_product(a@[i as int], b@[k - i]);
                }
                acc = acc + a[i] * b[k - i];
            } else {
                proof {
                    lemma_entry_product(a@[i as int], b@[k + n - i]);
                }
                acc = acc - a[i] * b[k + n - i];
            }
            i = i + 1;
        }
        out.push(reduce_mod(acc, q));
        k = k + 1;
    }
    out
}

proof fn lemma_fold_prefix(p: Seq<i64>, n: int, k: int, m: int)
    requires
        n >= 1,
        0 <= k < n,
        0 <= m <= p.len() <= 2 * n,
    ensures
        sum(m as nat, |j: int| fold_term(p, n, k, j)) == (if k < m {
            p[k] as int
        } else {
            0
        }) - (if k + n < m {
            p[k + n] as int
        } else {
            0
        }),
    decreases m,
{
    if m > 0 {
        lemma_fold_prefix(p, n, k, m - 1);
        let j = m - 1;
        if j < n {
            lemma_fundamental_div_mod_converse(j, n, 0, j);
        } else {
            lemma_fundamental_div_mod_converse(j, n, 1, j - n);
        }
    }
}

/// Multiplying with `multiply` and then reducing modulo `x^n + 1` gives the
/// product in the ring that `poly_mul` computes directly: for all `a` and `b`
/// of `n` coefficients, coefficient `k` of the folded raw product is
/// coefficient `k` of the negacyclic product.
pub proof fn lemma_multiply_then_reduce(a: Seq<i64>, b: Seq<i64>, n: int, p: Seq<i64>)
    requires
        n >= 1,
        a.len() == n,
        b.len() == n,
        p.len() == product_len(a, b),
        forall|j: int| 0 <= j < p.len() ==> #[trigger] p[j] == conv(a, b, j),
    ensures
        forall|k: int| 0 <= k < n ==> #[trigger] fold(p, n, k) == nega(a, b, n, k),
{
    assert forall|k: int| 0 <= k < n implies #[trigger] fold(p, n, k) == nega(a, b, n, k) by {
        lemma_fold_prefix(p, n, k, p.len() as int);
        let f1 = |i: int|
            if 0 <= k - i < b.len() {
                a[i] as int * b[k - i] as int
            } else {
                0
            };
        let f2 = |i: int|
            if 0 <= k + n - i < b.len() {
                a[i] as int * b[k + n - i] as int
            } else {
                0
            };
        let g = |i: int|
            if i <= k {
                a[i] as int * b[k - i] as int
            } else {
                -(a[i] as int * b[k - i + n] as int)
            };
        lemma_sum_sub(n as nat, f1, f2, g);
        assert(conv(a, b, k) == sum(n as nat, f1));
        assert(conv(a, b, k + n) == sum(n as nat, f2));
        if k + n >= p.len() {
            lemma_sum_zero(n as nat, f2);
        }
    }
}

} // verus!
