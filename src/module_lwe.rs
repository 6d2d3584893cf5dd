//! Module-LWE encryption with a square `k` by `k` public matrix: a small
//! secret vector, a binary mask per encryption, and one shared masked scalar
//! for all the bits of a message.
use vstd::prelude::*;
use vstd::arithmetic::div_mod::*;
use vstd::arithmetic::mul::*;
use crate::sums::{sum, lemma_sum_add, lemma_sum_ext, lemma_sum_mod, lemma_sum_bound};
use crate::modular::{modq, reduce_mod, add_mod, sub_mod};
use crate::linalg::{
    small, DimensionMismatch, ENTRY_LIMIT, LENGTH_LIMIT, bounded, in_range, is_matrix, matrix_in_range,
    column, dot, check_matrix, modular, matrix_vector, vector_matrix, dot_product,
    lemma_in_range_bounded, lemma_matrix_in_range_bounded, lemma_vector_matrix_assoc,
};
use crate::noise::{CdfTable, sample_uniform_vector, sample_uniform_matrix, sample_noise, sample_cdf};
use crate::encoding::{bits, decode_bit, margin, threshold_bit, lemma_decode_noisy_bit};

verus! {

/// Sizes that keep every intermediate value within `i64`.
pub open spec fn valid_params(k: int, q: int) -> bool {
    1 <= k <= LENGTH_LIMIT && 2 <= q <= ENTRY_LIMIT
}

/// `p0 = A s0 + e0 (mod q)`.
pub open spec fn key_relation(a: Seq<Vec<i64>>, s0: Seq<i64>, e0: Seq<i64>, p0: Seq<i64>, q: int) -> bool {
    &&& p0.len() == a.len()
    &&& forall|i: int|
        0 <= i < a.len() ==> #[trigger] p0[i] == modq(dot(a[i]@, s0) + e0[i] as int, q)
}

/// `(p1, c)` encrypts `m` under `(A, p0)` with the mask `s1` and the noise
/// `e1`, `e`: `p1 = s1 A + e1` and `c = m * floor(q / 2) + e + s1 . p0`, all
/// modulo `q`.
pub open spec fn ciphertext_relation(
    a: Seq<Vec<i64>>,
    p0: Seq<i64>,
    m: Seq<i64>,
    q: int,
    s1: Seq<i64>,
    e1: Seq<i64>,
    e: int,
    p1: Seq<i64>,
    c: Seq<i64>,
) -> bool {
    &&& p1.len() == a.len()
    &&& c.len() == m.len()
    &&& forall|j: int|
        0 <= j < a.len() ==> #[trigger] p1[j] == modq(dot(s1, column(a, j)) + e1[j] as int, q)
    &&& forall|l: int|
        0 <= l < m.len() ==> #[trigger] c[l] == modq(m[l] * (q / 2) + e + dot(s1, p0), q)
}

/// The bit that `decrypt` recovers at position `l`.
pub open spec fn decrypt_bit(p1: Seq<i64>, c: Seq<i64>, s0: Seq<i64>, q: int, l: int) -> int {
    decode_bit(c[l] - sum(s0.len(), |j: int| modq(p1[j] as int, q) * s0[j] as int), q)
}

/// The noise distribution of this variant: values in `{-1, 0, 1}`.
pub fn noise_table() -> (r: CdfTable)
    ensures
        r.wf(),
        r.bound() == 1,
{
    CdfTable::ternary()
}

/// `p0 = A s0 + e0 (mod q)` for the `k` by `k` matrix `a`. Fails when a
/// dimension is not `k`.
pub fn keygen_with(a: &Vec<Vec<i64>>, s0: &Vec<i64>, e0: &Vec<i64>, q: i64) -> (r: Result<
    Vec<i64>,
    DimensionMismatch,
>)
    requires
        valid_params(a.len() as int, q as int),
        matrix_in_range(a@, q as int),
        bounded(s0@),
    ensures
        r is Ok <==> (is_matrix(a@, a.len() as int, a.len() as int) && s0.len() == a.len()
            && e0.len() == a.len()),
        r matches Err(d) ==> d.expected != d.found,
        r matches Ok(p0) ==> in_range(p0@, q as int) && key_relation(a@, s0@, e0@, p0@, q as int),
{
    let k = a.len();
    check_matrix(a, k, k)?;
    if s0.len() != k {
        return Err(DimensionMismatch { expected: k, found: s0.len() });
    }
    if e0.len() != k {
        return Err(DimensionMismatch { expected: k, found: e0.len() });
    }
    proof {
        lemma_matrix_in_range_bounded(a@, q as int);
    }
    let as0 = matrix_vector(a, s0);
    let mut p0: Vec<i64> = Vec::with_capacity(k);
    let mut i: usize = 0;
    while i < k
        invariant
            i <= k,
            k == a.len(),
            as0@.len() == k,
            e0@.len() == k,
            2 <= q,
            forall|i2: int| 0 <= i2 < k ==> #[trigger] as0@[i2] == dot(a@[i2]@, s0@),
            p0@.len() == i,
            in_range(p0@, q as int),
            forall|i2: int|
                0 <= i2 < i ==> #[trigger] p0@[i2] == modq(dot(a@[i2]@, s0@) + e0@[i2] as int, q as int),
        decreases k - i,
    {
        proof {
            lemma_add_mod_noop(as0@[i as int] as int, e0@[i as int] as int, q as int);
        }
        p0.push(add_mod(reduce_mod(as0[i], q), reduce_mod(e0[i], q), q));
        i = i + 1;
    }
    Ok(p0)
}

/// A fresh key: `A` uniform over `[0, q)` (`k` by `k`), and `s0`, `e0` drawn
/// from this variant's noise table. Returns `(A, s0, e0, p0)`.
pub fn keygen(k: usize, q: i64, rng: &mut rand::rngs::StdRng) -> (r: (
    Vec<Vec<i64>>,
    Vec<i64>,
    Vec<i64>,
    Vec<i64>,
))
    requires
        valid_params(k as int, q as int),
    ensures
        is_matrix(r.0@, k as int, k as int),
        matrix_in_range(r.0@, q as int),
        r.1@.len() == k,
        small(r.1@, 1),
        r.2@.len() == k,
        small(r.2@, 1),
        in_range(r.3@, q as int),
        key_relation(r.0@, r.1@, r.2@, r.3@, q as int),
{
    let a = sample_uniform_matrix(rng, k, k, q);
    let table = noise_table();
    let s0 = sample_noise(rng, &table, k);
    let e0 = sample_noise(rng, &table, k);
    match keygen_with(&a, &s0, &e0, q) {
        Ok(p0) => (a, s0, e0, p0),
        Err(_) => {
            proof {
                assert(false);
            }
            (a, s0, e0, Vec::new())
        },
    }
}

/// Encrypts the `k` bits of `m` under `(a, p0)` with the binary mask `s1`
/// and the noise `e1`, `e`. Fails when `a` is not `k` by `k`, or `p0`, `m`,
/// `s1` or `e1` does not have `k` entries.
pub fn encrypt_with(
    a: &Vec<Vec<i64>>,
    p0: &Vec<i64>,
    m: &Vec<i64>,
    q: i64,
    s1: &Vec<i64>,
    e1: &Vec<i64>,
    e: i64,
) -> (r: Result<(Vec<i64>, Vec<i64>), DimensionMismatch>)
    requires
        valid_params(a.len() as int, q as int),
        matrix_in_range(a@, q as int),
        in_range(p0@, q as int),
        bits(m@),
        bits(s1@),
    ensures
        r is Ok <==> (is_matrix(a@, a.len() as int, a.len() as int) && p0.len() == a.len() && m.len() == a.len() && s1.len() == a.len()
            && e1.len() == a.len()),
        r matches Err(d) ==> d.expected != d.found,
        r matches Ok(ct) ==> in_range(ct.0@, q as int) && in_range(ct.1@, q as int)
            && ciphertext_relation(a@, p0@, m@, q as int, s1@, e1@, e as int, ct.0@, ct.1@),
{
    let k = a.len();
    check_matrix(a, k, k)?;
    if p0.len() != k {
        return Err(DimensionMismatch { expected: k, found: p0.len() });
    }
    if m.len() != k {
        return Err(DimensionMismatch { expected: k, found: m.len() });
    }
    if s1.len() != k {
        return Err(DimensionMismatch { expected: k, found: s1.len() });
    }
    if e1.len() != k {
        return Err(DimensionMismatch { expected: k, found: e1.len() });
    }
    proof {
        lemma_matrix_in_range_bounded(a@, q as int);
        lemma_in_range_bounded(p0@, q as int);
    }
    let s1a = vector_matrix(s1, a, k);
    let mut p1: Vec<i64> = Vec::with_capacity(k);
    let mut j: usize = 0;
    while j < k
        invariant
            j <= k,
            k == a.len(),
            s1a@.len() == k,
            e1@.len() == k,
            2 <= q,
            forall|j2: int| 0 <= j2 < k ==> #[trigger] s1a@[j2] == dot(s1@, column(a@, j2)),
            p1@.len() == j,
            in_range(p1@, q as int),
            forall|j2: int|
                0 <= j2 < j ==> #[trigger] p1@[j2] == modq(
                    dot(s1@, column(a@, j2)) + e1@[j2] as int,
                    q as int,
                ),
        decreases k - j,
    {
        proof {
            lemma_add_mod_noop(s1a@[j as int] as int, e1@[j as int] as int, q as int);
        }
        p1.push(add_mod(reduce_mod(s1a[j], q), reduce_mod(e1[j], q), q));
        j = j + 1;
    }
    let scalar = dot_product(s1, p0);
    let base = add_mod(reduce_mod(e, q), reduce_mod(scalar, q), q);
    proof {
        lemma_add_mod_noop(e as int, scalar as int, q as int);
    }
    let half = q / 2;
    let mut c: Vec<i64> = Vec::with_capacity(k);
    let mut l: usize = 0;
    while l < k
        invariant
            l <= k,
            m.len() == k,
            bits(m@),
            half == q / 2,
            2 <= q,
            base == modq(e + dot(s1@, p0@), q as int),
            c@.len() == l,
            in_range(c@, q as int),
            forall|l2: int|
                0 <= l2 < l ==> #[trigger] c@[l2] == modq(
                    m@[l2] * (q / 2) + e + dot(s1@, p0@),
                    q as int,
                ),
        decreases k - l,
    {
        let shift: i64 = if m[l] == 1 {
            half
        } else {
            0
        };
        proof {
            assert(shift == m@[l as int] * (q / 2));
            lemma_small_mod(shift as nat, q as nat);
            lemma_add_mod_noop(shift as int, e + dot(s1@, p0@), q as int);
            lemma_mod_twice(e + dot(s1@, p0@), q as int);
            lemma_add_mod_noop(shift as int, modq(e + dot(s1@, p0@), q as int), q as int);
        }
        c.push(add_mod(shift, base, q));
        l = l + 1;
    }
    Ok((p1, c))
}

/// Encrypts the `k` bits of `m` under `(a, p0)` with a fresh uniform binary
/// mask and noise from this variant's table. Fails when `a` is not `k` by
/// `k`, or `p0` or `m` does not have `k` entries.
pub fn encrypt(
    a: &Vec<Vec<i64>>,
    p0: &Vec<i64>,
    m: &Vec<i64>,
    q: i64,
    rng: &mut rand::rngs::StdRng,
) -> (r: Result<(Vec<i64>, Vec<i64>), DimensionMismatch>)
    requires
        valid_params(a.len() as int, q as int),
        matrix_in_range(a@, q as int),
        in_range(p0@, q as int),
        bits(m@),
    ensures
        r is Ok <==> (is_matrix(a@, a.len() as int, a.len() as int) && p0.len() == a.len() && m.len() == a.len()),
        r matches Err(d) ==> d.expected != d.found,
        r matches Ok(ct) ==> exists|s1: Seq<i64>, e1: Seq<i64>, e: int|
            s1.len() == a.len() && bits(s1) && e1.len() == a.len() && small(e1, 1) && -1 <= e
                <= 1 && #[trigger] ciphertext_relation(a@, p0@, m@, q as int, s1, e1, e, ct.0@, ct.1@),
{
    let k = a.len();
    check_matrix(a, k, k)?;
    if p0.len() != k {
        return Err(DimensionMismatch { expected: k, found: p0.len() });
    }
    if m.len() != k {
        return Err(DimensionMismatch { expected: k, found: m.len() });
    }
    let s1 = sample_uniform_vector(rng, k, 2);
    let table = noise_table();
    let e1 = sample_noise(rng, &table, k);
    let e = sample_cdf(rng, &table);
    assert(bits(s1@));
    match encrypt_with(a, p0, m, q, &s1, &e1, e) {
        Ok(ct) => {
            assert(small(e1@, 1));
            Ok(ct)
        },
        Err(d) => {
            proof {
                assert(false);
            }
            Err(d)
        },
    }
}

/// Recovers the bits encrypted in `(p1, c)` with the secret `s0`. Fails when
/// `p1` and `s0` differ in length.
pub fn decrypt(p1: &Vec<i64>, c: &Vec<i64>, s0: &Vec<i64>, q: i64) -> (r: Result<
    Vec<i64>,
    DimensionMismatch,
>)
    requires
        valid_params(s0.len() as int, q as int),
        bounded(s0@),
    ensures
        r is Ok <==> p1.len() == s0.len(),
        r matches Err(d) ==> d.expected == s0.len() && d.found == p1.len(),
        r matches Ok(out) ==> {
            &&& out@.len() == c.len()
            &&& bits(out@)
            &&& forall|l: int| 0 <= l < c.len() ==> #[trigger] out@[l] == decrypt_bit(p1@, c@, s0@, q as int, l)
        },
{
    if p1.len() != s0.len() {
        return Err(DimensionMismatch { expected: s0.len(), found: p1.len() });
    }
    let p = modular(p1, q);
    proof {
        lemma_in_range_bounded(p@, q as int);
    }
    let inner = dot_product(&p, s0);
    proof {
        lemma_sum_ext(
            s0.len() as nat,
            |j: int| p@[j] as int * s0@[j] as int,
            |j: int| modq(p1@[j] as int, q as int) * s0@[j] as int,
        );
    }
    let ri = reduce_mod(inner, q);
    let mut out: Vec<i64> = Vec::with_capacity(c.len());
    let mut l: usize = 0;
    while l < c.len()
        invariant
            l <= c.len(),
            2 <= q,
            inner == sum(s0.len() as nat, |j: int| modq(p1@[j] as int, q as int) * s0@[j] as int),
            ri == modq(inner as int, q as int),
            out@.len() == l,
            bits(out@),
            forall|l2: int| 0 <= l2 < l ==> #[trigger] out@[l2] == decrypt_bit(p1@, c@, s0@, q as int, l2),
        decreases c.len() - l,
    {
        let noisy = sub_mod(reduce_mod(c[l], q), ri, q);
        proof {
            lemma_sub_mod_noop(c@[l as int] as int, inner as int, q as int);
            lemma_small_mod(noisy as nat, q as nat);
        }
        out.push(threshold_bit(noisy, q));
        l = l + 1;
    }
    Ok(out)
}

/// The noise that decryption sees: `e + s1 . e0 - e1 . s0`.
pub open spec fn total_noise(s0: Seq<i64>, e0: Seq<i64>, s1: Seq<i64>, e1: Seq<i64>, e: int) -> int {
    e + dot(s1, e0) - dot(e1, s0)
}

proof fn lemma_round_trip_at(
    a: Seq<Vec<i64>>,
    s0: Seq<i64>,
    e0: Seq<i64>,
    p0: Seq<i64>,
    q: int,
    m: Seq<i64>,
    s1: Seq<i64>,
    e1: Seq<i64>,
    e: int,
    p1: Seq<i64>,
    c: Seq<i64>,
    l: int,
)
    requires
        valid_params(a.len() as int, q),
        is_matrix(a, a.len() as int, a.len() as int),
        s0.len() == a.len(),
        e0.len() == a.len(),
        s1.len() == a.len(),
        e1.len() == a.len(),
        key_relation(a, s0, e0, p0, q),
        bits(m),
        ciphertext_relation(a, p0, m, q, s1, e1, e, p1, c),
        0 <= l < m.len(),
        -margin(q) < total_noise(s0, e0, s1, e1, e) < margin(q),
    ensures
        decrypt_bit(p1, c, s0, q, l) == m[l],
{
    let k = a.len() as nat;
    let h = q / 2;
    let t = sum(k, |i: int| s1[i] as int * dot(a[i]@, s0));
    lemma_vector_matrix_assoc(s1, a, s0);
    assert(sum(k, |j: int| dot(s1, column(a, j)) * s0[j] as int) == t);
    // s1 . p0 == t + s1 . e0  (mod q)
    assert forall|i: int| 0 <= i < k implies #[trigger] (s1[i] as int * p0[i] as int) % q == (
    s1[i] as int * (dot(a[i]@, s0) + e0[i] as int)) % q by {
        lemma_mul_mod_noop_right(s1[i] as int, dot(a[i]@, s0) + e0[i] as int, q);
    }
    lemma_sum_mod(
        k,
        |i: int| s1[i] as int * p0[i] as int,
        |i: int| s1[i] as int * (dot(a[i]@, s0) + e0[i] as int),
        q,
    );
    assert forall|i: int| 0 <= i < k implies #[trigger] (s1[i] as int * (dot(a[i]@, s0)
        + e0[i] as int)) == s1[i] as int * dot(a[i]@, s0) + s1[i] as int * e0[i] as int by {
        lemma_mul_is_distributive_add(s1[i] as int, dot(a[i]@, s0), e0[i] as int);
    }
    lemma_sum_add(
        k,
        |i: int| s1[i] as int * dot(a[i]@, s0),
        |i: int| s1[i] as int * e0[i] as int,
        |i: int| s1[i] as int * (dot(a[i]@, s0) + e0[i] as int),
    );
    let x = dot(s1, p0);
    assert(x % q == (t + dot(s1, e0)) % q);
    // (p1 mod q) . s0 == t + e1 . s0  (mod q)
    let inner = sum(k, |j: int| modq(p1[j] as int, q) * s0[j] as int);
    assert forall|j: int| 0 <= j < k implies #[trigger] (modq(p1[j] as int, q) * s0[j] as int) % q
        == ((dot(s1, column(a, j)) + e1[j] as int) * s0[j] as int) % q by {
        lemma_mod_twice(dot(s1, column(a, j)) + e1[j] as int, q);
        lemma_mul_mod_noop_left(dot(s1, column(a, j)) + e1[j] as int, s0[j] as int, q);
    }
    lemma_sum_mod(
        k,
        |j: int| modq(p1[j] as int, q) * s0[j] as int,
        |j: int| (dot(s1, column(a, j)) + e1[j] as int) * s0[j] as int,
        q,
    );
    assert forall|j: int| 0 <= j < k implies #[trigger] ((dot(s1, column(a, j)) + e1[j] as int)
        * s0[j] as int) == dot(s1, column(a, j)) * s0[j] as int + e1[j] as int * s0[j] as int by {
        lemma_mul_is_distributive_add_other_way(s0[j] as int, dot(s1, column(a, j)), e1[j] as int);
    }
    lemma_sum_add(
        k,
        |j: int| dot(s1, column(a, j)) * s0[j] as int,
        |j: int| e1[j] as int * s0[j] as int,
        |j: int| (dot(s1, column(a, j)) + e1[j] as int) * s0[j] as int,
    );
    assert(inner % q == (t + dot(e1, s0)) % q);
    // c[l] - inner == m[l] * h + total noise  (mod q)
    let mh = m[l] * h;
    let v = c[l] - inner;
    let en = total_noise(s0, e0, s1, e1, e);
    lemma_sub_mod_noop(c[l] as int, inner, q);
    lemma_mod_twice(mh + e + x, q);
    lemma_add_mod_noop(mh + e, x, q);
    lemma_add_mod_noop(mh + e, t + dot(s1, e0), q);
    lemma_sub_mod_noop(mh + e + t + dot(s1, e0), t + dot(e1, s0), q);
    assert(v % q == (mh + e + t + dot(s1, e0) - (t + dot(e1, s0))) % q);
    assert(mh + e + t + dot(s1, e0) - (t + dot(e1, s0)) == m[l] * h + en);
    lemma_decode_noisy_bit(m[l] as int, en, q);
}

/// Decryption inverts encryption when the noise stays inside the decoding
/// margin: for a key `p0 = A s0 + e0`, a bit vector `m`, and a ciphertext of
/// `m` made with the mask `s1` and noise `e1`, `e`, if
/// `e + s1 . e0 - e1 . s0` has magnitude below `margin(q)`, decryption
/// returns `m`.
pub proof fn lemma_round_trip(
    a: Seq<Vec<i64>>,
    s0: Seq<i64>,
    e0: Seq<i64>,
    p0: Seq<i64>,
    q: int,
    m: Seq<i64>,
    s1: Seq<i64>,
    e1: Seq<i64>,
    e: int,
    p1: Seq<i64>,
    c: Seq<i64>,
)
    requires
        valid_params(a.len() as int, q),
        is_matrix(a, a.len() as int, a.len() as int),
        s0.len() == a.len(),
        e0.len() == a.len(),
        s1.len() == a.len(),
        e1.len() == a.len(),
        key_relation(a, s0, e0, p0, q),
        bits(m),
        ciphertext_relation(a, p0, m, q, s1, e1, e, p1, c),
        -margin(q) < total_noise(s0, e0, s1, e1, e) < margin(q),
    ensures
        forall|l: int| 0 <= l < m.len() ==> #[trigger] decrypt_bit(p1, c, s0, q, l) == m[l],
{
    assert forall|l: int| 0 <= l < m.len() implies #[trigger] decrypt_bit(p1, c, s0, q, l)
        == m[l] by {
        lemma_round_trip_at(a, s0, e0, p0, q, m, s1, e1, e, p1, c, l);
    }
}

/// With this variant's noise (all of `s0`, `e0`, `e1`, `e` of magnitude at
/// most one, `s1` binary) and `2 k + 1` below the decoding margin, decryption
/// always returns the encrypted bits.
pub proof fn lemma_round_trip_small_noise(
    a: Seq<Vec<i64>>,
    s0: Seq<i64>,
    e0: Seq<i64>,
    p0: Seq<i64>,
    q: int,
    m: Seq<i64>,
    s1: Seq<i64>,
    e1: Seq<i64>,
    e: int,
    p1: Seq<i64>,
    c: Seq<i64>,
)
    requires
        valid_params(a.len() as int, q),
        2 * a.len() + 1 < margin(q),
        is_matrix(a, a.len() as int, a.len() as int),
        s0.len() == a.len(),
        small(s0, 1),
        e0.len() == a.len(),
        small(e0, 1),
        s1.len() == a.len(),
        bits(s1),
        e1.len() == a.len(),
        small(e1, 1),
        -1 <= e <= 1,
        key_relation(a, s0, e0, p0, q),
        bits(m),
        ciphertext_relation(a, p0, m, q, s1, e1, e, p1, c),
    ensures
        forall|l: int| 0 <= l < m.len() ==> #[trigger] decrypt_bit(p1, c, s0, q, l) == m[l],
{
    let k = a.len() as nat;
    assert forall|i: int| 0 <= i < k implies -1 <= #[trigger] (s1[i] as int * e0[i] as int) <= 1 by {
        assert(-1 <= e0[i] <= 1);
    }
    lemma_sum_bound(k, |i: int| s1[i] as int * e0[i] as int, 1);
    assert forall|i: int| 0 <= i < k implies -1 <= #[trigger] (e1[i] as int * s0[i] as int) <= 1 by {
        assert(-1 <= e1[i] <= 1);
        assert(-1 <= s0[i] <= 1);
        assert(-1 <= e1[i] as int * s0[i] as int <= 1) by (nonlinear_arith)
            requires
                -1 <= e1[i] <= 1,
                -1 <= s0[i] <= 1,
        ;
    }
    lemma_sum_bound(k, |i: int| e1[i] as int * s0[i] as int, 1);
    lemma_round_trip(a, s0, e0, p0, q, m, s1, e1, e, p1, c);
}

} // verus!
