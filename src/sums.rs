//! Finite sums over integer-valued spec functions and the algebra on them
//! (extensionality, linearity, exchange of summation, congruence, bounds).
use vstd::prelude::*;
use vstd::arithmetic::div_mod::*;
use vstd::arithmetic::mul::*;

verus! {

/// `f(0) + f(1) + ... + f(n - 1)`.
pub open spec fn sum(n: nat, f: spec_fn(int) -> int) -> int
    decreases n,
{
    if n == 0 {
        0
    } else {
        sum((n - 1) as nat, f) + f(n - 1)
    }
}

pub proof fn lemma_sum_ext(n: nat, f: spec_fn(int) -> int, g: spec_fn(int) -> int)
    requires
        forall|i: int| 0 <= i < n ==> #[trigger] f(i) == g(i),
    ensures
        sum(n, f) == sum(n, g),
    decreases n,
{
    if n > 0 {
        lemma_sum_ext((n - 1) as nat, f, g);
    }
}

pub proof fn lemma_sum_zero(n: nat, f: spec_fn(int) -> int)
    requires
        forall|i: int| 0 <= i < n ==> #[trigger] f(i) == 0,
    ensures
        sum(n, f) == 0,
    decreases n,
{
    if n > 0 {
        lemma_sum_zero((n - 1) as nat, f);
    }
}

pub proof fn lemma_sum_add(
    n: nat,
    f: spec_fn(int) -> int,
    g: spec_fn(int) -> int,
    h: spec_fn(int) -> int,
)
    requires
        forall|i: int| 0 <= i < n ==> #[trigger] h(i) == f(i) + g(i),
    ensures
        sum(n, h) == sum(n, f) + sum(n, g),
    decreases n,
{
    if n > 0 {
        lemma_sum_add((n - 1) as nat, f, g, h);
    }
}

pub proof fn lemma_sum_sub(
    n: nat,
    f: spec_fn(int) -> int,
    g: spec_fn(int) -> int,
    h: spec_fn(int) -> int,
)
    requires
        forall|i: int| 0 <= i < n ==> #[trigger] h(i) == f(i) - g(i),
    ensures
        sum(n, h) == sum(n, f) - sum(n, g),
    decreases n,
{
    if n > 0 {
        lemma_sum_sub((n - 1) as nat, f, g, h);
    }
}

pub proof fn lemma_sum_scale(n: nat, c: int, f: spec_fn(int) -> int, h: spec_fn(int) -> int)
    requires
        forall|i: int| 0 <= i < n ==> #[trigger] h(i) == c * f(i),
    ensures
        sum(n, h) == c * sum(n, f),
    decreases n,
{
    if n > 0 {
        lemma_sum_scale((n - 1) as nat, c, f, h);
        lemma_mul_is_distributive_add(c, sum((n - 1) as nat, f), f(n - 1));
    }
}

/// The order of a double sum can be exchanged.
pub proof fn lemma_sum_swap(n: nat, m: nat, g: spec_fn(int, int) -> int)
    ensures
        sum(n, |i: int| sum(m, |j: int| g(i, j))) == sum(m, |j: int| sum(n, |i: int| g(i, j))),
    decreases n,
{
    if n > 0 {
        let n1 = (n - 1) as nat;
        lemma_sum_swap(n1, m, g);
        assert forall|j: int| 0 <= j < m implies sum(n, |i: int| g(i, j)) == sum(
            n1,
            |i: int| g(i, j),
        ) + #[trigger] g(n1 as int, j) by {}
        assert(sum(n, |i: int| sum(m, |j: int| g(i, j))) == sum(n1, |i: int| sum(m, |j: int| g(i, j)))
            + sum(m, |j: int| g(n1 as int, j)));
        lemma_sum_add(
            m,
            |j: int| sum(n1, |i: int| g(i, j)),
            |j: int| g(n1 as int, j),
            |j: int| sum(n, |i: int| g(i, j)),
        );
    } else {
        lemma_sum_zero(m, |j: int| sum(n, |i: int| g(i, j)));
    }
}

/// A bilinear double sum regroups: `(s A) x == s (A x)`.
pub proof fn lemma_sum_assoc(
    n: nat,
    m: nat,
    s: spec_fn(int) -> int,
    a: spec_fn(int, int) -> int,
    x: spec_fn(int) -> int,
)
    ensures
        sum(m, |j: int| sum(n, |i: int| s(i) * a(i, j)) * x(j)) == sum(
            n,
            |i: int| s(i) * sum(m, |j: int| a(i, j) * x(j)),
        ),
{
    let g = |i: int, j: int| s(i) * (a(i, j) * x(j));
    assert forall|j: int| 0 <= j < m implies sum(n, |i: int| s(i) * a(i, j)) * #[trigger] x(j)
        == sum(n, |i: int| g(i, j)) by {
        assert forall|i: int| 0 <= i < n implies #[trigger] g(i, j) == x(j) * (s(i) * a(i, j)) by {
            lemma_mul_is_associative(s(i), a(i, j), x(j));
            lemma_mul_is_commutative(x(j), s(i) * a(i, j));
        }
        lemma_sum_scale(n, x(j), |i: int| s(i) * a(i, j), |i: int| g(i, j));
        lemma_mul_is_commutative(x(j), sum(n, |i: int| s(i) * a(i, j)));
    }
    lemma_sum_ext(
        m,
        |j: int| sum(n, |i: int| s(i) * a(i, j)) * x(j),
        |j: int| sum(n, |i: int| g(i, j)),
    );
    lemma_sum_swap(n, m, g);
    assert forall|i: int| 0 <= i < n implies sum(m, |j: int| g(i, j)) == #[trigger] s(i) * sum(
        m,
        |j: int| a(i, j) * x(j),
    ) by {
        lemma_sum_scale(m, s(i), |j: int| a(i, j) * x(j), |j: int| g(i, j));
    }
    lemma_sum_ext(
        n,
        |i: int| sum(m, |j: int| g(i, j)),
        |i: int| s(i) * sum(m, |j: int| a(i, j) * x(j)),
    );
}

/// Splitting off the first term.
pub proof fn lemma_sum_front(n: nat, f: spec_fn(int) -> int)
    requires
        n >= 1,
    ensures
        sum(n, f) == f(0) + sum((n - 1) as nat, |j: int| f(j + 1)),
    decreases n,
{
    let g = |j: int| f(j + 1);
    if n > 1 {
        let n1 = (n - 1) as nat;
        let n2 = (n - 2) as nat;
        lemma_sum_front(n1, f);
        assert(sum(n1, f) == f(0) + sum(n2, g));
        assert(sum(n1, g) == sum(n2, g) + g(n2 as int));
        assert(sum(n, f) == sum(n1, f) + f(n1 as int));
    } else {
        assert(sum(0, g) == 0);
        assert(sum(1, f) == sum(0, f) + f(0));
    }
}

/// A sum taken in reverse order is the same sum.
pub proof fn lemma_sum_reverse(n: nat, f: spec_fn(int) -> int)
    ensures
        sum(n, |j: int| f(n - 1 - j)) == sum(n, f),
    decreases n,
{
    if n >= 1 {
        let n1 = (n - 1) as nat;
        let g = |j: int| f(n - 1 - j);
        lemma_sum_front(n, g);
        assert(sum(n, g) == g(0) + sum(n1, |j: int| g(j + 1)));
        lemma_sum_ext(n1, |j: int| g(j + 1), |j: int| f(n1 - 1 - j));
        lemma_sum_reverse(n1, f);
        assert(sum(n, f) == sum(n1, f) + f(n1 as int));
    }
}

proof fn lemma_sum_window_step(n: nat, f: spec_fn(int) -> int, c: int)
    requires
        n >= 1,
        f(c + n) == f(c),
    ensures
        sum(n, |j: int| f(c + 1 + j)) == sum(n, |j: int| f(c + j)),
{
    let g = |j: int| f(c + j);
    let h = |j: int| f(c + 1 + j);
    let n1 = (n - 1) as nat;
    lemma_sum_front(n, g);
    assert(sum(n, g) == g(0) + sum(n1, |j: int| g(j + 1)));
    lemma_sum_ext(n1, |j: int| g(j + 1), h);
    assert(sum(n, h) == sum(n1, h) + h(n1 as int));
}

/// For a function of period `n`, every window of `n` consecutive terms has
/// the same sum.
pub proof fn lemma_sum_periodic(n: nat, f: spec_fn(int) -> int, c: int)
    requires
        n >= 1,
        forall|j: int| #[trigger] f(j + n) == f(j),
    ensures
        sum(n, |j: int| f(c + j)) == sum(n, f),
    decreases (if c >= 0 {
        c
    } else {
        -c
    }),
{
    if c > 0 {
        lemma_sum_periodic(n, f, c - 1);
        assert(f((c - 1) + n) == f(c - 1));
        lemma_sum_window_step(n, f, c - 1);
        lemma_sum_ext(n, |j: int| f((c - 1) + 1 + j), |j: int| f(c + j));
        lemma_sum_ext(n, |j: int| f((c - 1) + j), |j: int| f(c - 1 + j));
    } else if c < 0 {
        lemma_sum_periodic(n, f, c + 1);
        assert(f(c + n) == f(c));
        lemma_sum_window_step(n, f, c);
        lemma_sum_ext(n, |j: int| f(c + 1 + j), |j: int| f((c + 1) + j));
    } else {
        lemma_sum_ext(n, |j: int| f(c + j), f);
    }
}

/// Sums of termwise congruent functions are congruent.
pub proof fn lemma_sum_mod(n: nat, f: spec_fn(int) -> int, g: spec_fn(int) -> int, q: int)
    requires
        q > 0,
        forall|i: int| 0 <= i < n ==> #[trigger] f(i) % q == g(i) % q,
    ensures
        sum(n, f) % q == sum(n, g) % q,
    decreases n,
{
    if n > 0 {
        let n1 = (n - 1) as nat;
        lemma_sum_mod(n1, f, g, q);
        lemma_add_mod_noop(sum(n1, f), f(n - 1), q);
        lemma_add_mod_noop(sum(n1, g), g(n - 1), q);
    }
}

/// A sum of `n` terms of magnitude at most `b` has magnitude at most `n * b`.
pub proof fn lemma_sum_bound(n: nat, f: spec_fn(int) -> int, b: int)
    requires
        forall|i: int| 0 <= i < n ==> -b <= #[trigger] f(i) <= b,
    ensures
        -(n * b) <= sum(n, f) <= n * b,
    decreases n,
{
    if n > 0 {
        lemma_sum_bound((n - 1) as nat, f, b);
        lemma_mul_is_distributive_add_other_way(b, (n - 1) as int, 1);
    }
}

} // verus!
