//! The algebra of multiplication in `Z[x] / (x^n + 1)` over coefficient
//! functions: `(f s) r == (f r) s`, linearity, and compatibility with
//! congruence modulo `q`.
use vstd::prelude::*;
use vstd::arithmetic::div_mod::*;
use vstd::arithmetic::mul::*;
use crate::sums::{
    sum, lemma_sum_ext, lemma_sum_add, lemma_sum_mod, lemma_sum_assoc, lemma_sum_reverse,
    lemma_sum_periodic,
};
use crate::poly::nega;

verus! {

/// Coefficient `t` of `g` for any integer `t`, where `x^n == -1`: the
/// coefficient `g(t mod n)` with sign `(-1)^(t div n)`.
pub open spec fn wrap(g: spec_fn(int) -> int, n: int, t: int) -> int {
    if (t / n) % 2 == 0 {
        g(t % n)
    } else {
        -g(t % n)
    }
}

/// Coefficient `k` of the product of `f` and `g` in `Z[x] / (x^n + 1)`.
pub open spec fn ring_coeff(f: spec_fn(int) -> int, g: spec_fn(int) -> int, n: int, k: int) -> int {
    sum(n as nat, |i: int| f(i) * wrap(g, n, k - i))
}

/// The coefficient function of a vector.
pub open spec fn seq_fn(v: Seq<i64>) -> spec_fn(int) -> int {
    |i: int| v[i] as int
}

pub proof fn lemma_wrap_shift(g: spec_fn(int) -> int, n: int, t: int)
    requires
        n > 0,
    ensures
        wrap(g, n, t + n) == -wrap(g, n, t),
{
    lemma_fundamental_div_mod(t, n);
    lemma_mul_is_distributive_add_other_way(n, t / n, 1);
    lemma_mul_is_commutative(n, t / n);
    lemma_fundamental_div_mod_converse(t + n, n, t / n + 1, t % n);
}

/// `nega` is the ring coefficient of the two coefficient functions.
pub proof fn lemma_nega_ring_coeff(a: Seq<i64>, b: Seq<i64>, n: int, k: int)
    requires
        a.len() == n,
        b.len() == n,
        0 <= k < n,
    ensures
        nega(a, b, n, k) == ring_coeff(seq_fn(a), seq_fn(b), n, k),
{
    assert forall|i: int| 0 <= i < n implies (if i <= k {
        a[i] as int * b[k - i] as int
    } else {
        -(a[i] as int * b[k - i + n] as int)
    }) == #[trigger] seq_fn(a)(i) * wrap(seq_fn(b), n, k - i) by {
        if i <= k {
            lemma_fundamental_div_mod_converse(k - i, n, 0, k - i);
        } else {
            lemma_fundamental_div_mod_converse(k - i, n, -1, k - i + n);
            lemma_mul_unary_negation(a[i] as int, b[k - i + n] as int);
        }
    }
    lemma_sum_ext(
        n as nat,
        |i: int|
            if i <= k {
                a[i] as int * b[k - i] as int
            } else {
                -(a[i] as int * b[k - i + n] as int)
            },
        |i: int| seq_fn(a)(i) * wrap(seq_fn(b), n, k - i),
    );
}

proof fn lemma_inner_symmetric(s: spec_fn(int) -> int, r: spec_fn(int) -> int, n: int, k: int, i: int)
    requires
        n >= 1,
    ensures
        sum(n as nat, |j: int| wrap(s, n, j - i) * wrap(r, n, k - j)) == sum(
            n as nat,
            |j: int| wrap(r, n, j - i) * wrap(s, n, k - j),
        ),
{
    let f = |j: int| wrap(s, n, j - i) * wrap(r, n, k - j);
    assert forall|j: int| #[trigger] f(j + n) == f(j) by {
        lemma_wrap_shift(s, n, j - i);
        lemma_wrap_shift(r, n, k - j - n);
        assert(j + n - i == (j - i) + n);
        assert(k - (j + n) + n == k - j);
        lemma_mul_unary_negation(wrap(s, n, j - i), -wrap(r, n, k - j));
        lemma_mul_unary_negation(wrap(s, n, j - i), wrap(r, n, k - j));
    }
    let c = k + i - n + 1;
    lemma_sum_periodic(n as nat, f, c);
    let g = |j: int| f(k + i - j);
    lemma_sum_reverse(n as nat, g);
    lemma_sum_ext(n as nat, |j: int| g(n - 1 - j), |j: int| f(c + j));
    assert forall|j: int| 0 <= j < n implies #[trigger] g(j) == wrap(r, n, j - i) * wrap(
        s,
        n,
        k - j,
    ) by {
        assert(k + i - j - i == k - j);
        assert(k - (k + i - j) == j - i);
        lemma_mul_is_commutative(wrap(s, n, k - j), wrap(r, n, j - i));
    }
    lemma_sum_ext(n as nat, g, |j: int| wrap(r, n, j - i) * wrap(s, n, k - j));
}

proof fn lemma_ring_coeff_expand(f: spec_fn(int) -> int, s: spec_fn(int) -> int, r: spec_fn(int) -> int, n: int, k: int)
    requires
        n >= 1,
    ensures
        ring_coeff(|j: int| ring_coeff(f, s, n, j), r, n, k) == sum(
            n as nat,
            |i: int| f(i) * sum(n as nat, |j: int| wrap(s, n, j - i) * wrap(r, n, k - j)),
        ),
{
    let fa = |i: int, j: int| wrap(s, n, j - i);
    let fx = |j: int| wrap(r, n, k - j);
    lemma_sum_assoc(n as nat, n as nat, f, fa, fx);
    let inner = |j: int| ring_coeff(f, s, n, j);
    assert forall|j: int| 0 <= j < n implies #[trigger] inner(j) * wrap(r, n, k - j) == sum(
        n as nat,
        |i: int| f(i) * fa(i, j),
    ) * fx(j) by {
        lemma_sum_ext(n as nat, |i: int| f(i) * wrap(s, n, j - i), |i: int| f(i) * fa(i, j));
    }
    lemma_sum_ext(
        n as nat,
        |j: int| inner(j) * wrap(r, n, k - j),
        |j: int| sum(n as nat, |i: int| f(i) * fa(i, j)) * fx(j),
    );
    assert forall|i: int| 0 <= i < n implies #[trigger] f(i) * sum(n as nat, |j: int| fa(i, j) * fx(j))
        == f(i) * sum(n as nat, |j: int| wrap(s, n, j - i) * wrap(r, n, k - j)) by {
        lemma_sum_ext(
            n as nat,
            |j: int| fa(i, j) * fx(j),
            |j: int| wrap(s, n, j - i) * wrap(r, n, k - j),
        );
    }
    lemma_sum_ext(
        n as nat,
        |i: int| f(i) * sum(n as nat, |j: int| fa(i, j) * fx(j)),
        |i: int| f(i) * sum(n as nat, |j: int| wrap(s, n, j - i) * wrap(r, n, k - j)),
    );
}

/// Multiplying by `s` and then by `r` is multiplying by `r` and then by `s`:
/// coefficient `k` of `(f s) r` equals coefficient `k` of `(f r) s`.
pub proof fn lemma_ring_rotate(f: spec_fn(int) -> int, s: spec_fn(int) -> int, r: spec_fn(int) -> int, n: int, k: int)
    requires
        n >= 1,
    ensures
        ring_coeff(|j: int| ring_coeff(f, s, n, j), r, n, k) == ring_coeff(
            |j: int| ring_coeff(f, r, n, j),
            s,
            n,
            k,
        ),
{
    lemma_ring_coeff_expand(f, s, r, n, k);
    lemma_ring_coeff_expand(f, r, s, n, k);
    assert forall|i: int| 0 <= i < n implies #[trigger] f(i) * sum(
        n as nat,
        |j: int| wrap(s, n, j - i) * wrap(r, n, k - j),
    ) == f(i) * sum(n as nat, |j: int| wrap(r, n, j - i) * wrap(s, n, k - j)) by {
        lemma_inner_symmetric(s, r, n, k, i);
    }
    lemma_sum_ext(
        n as nat,
        |i: int| f(i) * sum(n as nat, |j: int| wrap(s, n, j - i) * wrap(r, n, k - j)),
        |i: int| f(i) * sum(n as nat, |j: int| wrap(r, n, j - i) * wrap(s, n, k - j)),
    );
}

/// The product is additive in its first factor.
pub proof fn lemma_ring_coeff_add(f1: spec_fn(int) -> int, f2: spec_fn(int) -> int, g: spec_fn(int) -> int, n: int, k: int)
    requires
        n >= 1,
    ensures
        ring_coeff(|i: int| f1(i) + f2(i), g, n, k) == ring_coeff(f1, g, n, k) + ring_coeff(f2, g, n, k),
{
    assert forall|i: int| 0 <= i < n implies ((|i2: int| f1(i2) + f2(i2))(i) * #[trigger] wrap(g, n, k - i))
        == f1(i) * wrap(g, n, k - i) + f2(i) * wrap(g, n, k - i) by {
        lemma_mul_is_distributive_add_other_way(wrap(g, n, k - i), f1(i), f2(i));
    }
    lemma_sum_add(
        n as nat,
        |i: int| f1(i) * wrap(g, n, k - i),
        |i: int| f2(i) * wrap(g, n, k - i),
        |i: int| (|i2: int| f1(i2) + f2(i2))(i) * wrap(g, n, k - i),
    );
}

/// Congruent first factors give congruent products.
pub proof fn lemma_ring_coeff_mod_left(f1: spec_fn(int) -> int, f2: spec_fn(int) -> int, g: spec_fn(int) -> int, n: int, k: int, q: int)
    requires
        n >= 1,
        q > 0,
        forall|i: int| 0 <= i < n ==> #[trigger] f1(i) % q == f2(i) % q,
    ensures
        ring_coeff(f1, g, n, k) % q == ring_coeff(f2, g, n, k) % q,
{
    assert forall|i: int| 0 <= i < n implies #[trigger] (f1(i) * wrap(g, n, k - i)) % q == (f2(i)
        * wrap(g, n, k - i)) % q by {
        lemma_mul_mod_noop_left(f1(i), wrap(g, n, k - i), q);
        lemma_mul_mod_noop_left(f2(i), wrap(g, n, k - i), q);
    }
    lemma_sum_mod(
        n as nat,
        |i: int| f1(i) * wrap(g, n, k - i),
        |i: int| f2(i) * wrap(g, n, k - i),
        q,
    );
}

/// Congruent second factors give congruent products.
pub proof fn lemma_ring_coeff_mod_right(f: spec_fn(int) -> int, g1: spec_fn(int) -> int, g2: spec_fn(int) -> int, n: int, k: int, q: int)
    requires
        n >= 1,
        q > 0,
        forall|i: int| 0 <= i < n ==> #[trigger] g1(i) % q == g2(i) % q,
    ensures
        ring_coeff(f, g1, n, k) % q == ring_coeff(f, g2, n, k) % q,
{
    assert forall|i: int| 0 <= i < n implies #[trigger] (f(i) * wrap(g1, n, k - i)) % q == (f(i)
        * wrap(g2, n, k - i)) % q by {
        let t = k - i;
        lemma_fundamental_div_mod(t, n);
        assert(g1(t % n) % q == g2(t % n) % q);
        lemma_sub_mod_noop(0, g1(t % n), q);
        lemma_sub_mod_noop(0, g2(t % n), q);
        assert(wrap(g1, n, t) % q == wrap(g2, n, t) % q);
        lemma_mul_mod_noop_right(f(i), wrap(g1, n, t), q);
        lemma_mul_mod_noop_right(f(i), wrap(g2, n, t), q);
    }
    lemma_sum_mod(
        n as nat,
        |i: int| f(i) * wrap(g1, n, k - i),
        |i: int| f(i) * wrap(g2, n, k - i),
        q,
    );
}

} // verus!
