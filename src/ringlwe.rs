//! Ring-LWE encryption over `Z_q[x] / (x^n + 1)`: one ring element of public
//! randomness, a small secret, and `n` bits per ciphertext.
use vstd::prelude::*;
use vstd::arithmetic::div_mod::*;
use crate::modular::{modq, reduce_mod, add_mod, sub_mod};
use crate::linalg::{small, DimensionMismatch, ENTRY_LIMIT, LENGTH_LIMIT, bounded, in_range, modular, lemma_in_range_bounded};
use crate::poly::{multiply, reduce, nega, lemma_multiply_then_reduce};
use crate::noise::{CdfTable, sample_uniform_vector, sample_noise, gen_small_polynomial};
use crate::encoding::{bits, decode_bit, margin, threshold_bit, lemma_decode_noisy_bit};
use crate::ring_algebra::{
    ring_coeff, seq_fn, lemma_nega_ring_coeff, lemma_ring_rotate, lemma_ring_coeff_add,
    lemma_ring_coeff_mod_left, lemma_ring_coeff_mod_right,
};

verus! {

/// The ring degree `dimension` (n) and the modulus `modulo` (q).
pub struct SecurityParameters {
    pub dimension: i64,
    pub modulo: i64,
}

pub struct PrivateKey {
    /// The secret ring element `s`, with coefficients in `[0, q)`.
    pub secret_vector: Vec<i64>,
}

pub struct PublicKey {
    /// The uniform ring element `a`.
    pub polynomial: Vec<i64>,
    /// `b = a s + e`, reduced into `[0, q)`.
    pub error_polynomial: Vec<i64>,
}

impl SecurityParameters {
    /// Sizes that keep every intermediate value within `i64`.
    pub open spec fn valid(&self) -> bool {
        &&& 1 <= self.dimension <= LENGTH_LIMIT
        &&& 2 <= self.modulo <= ENTRY_LIMIT
    }
}

/// A vector of `n` residues modulo `q`.
pub open spec fn ring_element(v: Seq<i64>, n: int, q: int) -> bool {
    v.len() == n && in_range(v, q)
}

impl PrivateKey {
    pub open spec fn wf(&self, p: SecurityParameters) -> bool {
        ring_element(self.secret_vector@, p.dimension as int, p.modulo as int)
    }
}

impl PublicKey {
    /// Both ring elements have `n` coefficients.
    pub open spec fn shape(&self, p: SecurityParameters) -> bool {
        self.polynomial@.len() == p.dimension && self.error_polynomial@.len() == p.dimension
    }

    /// Every coefficient is a residue modulo `q`.
    pub open spec fn residues(&self, q: int) -> bool {
        in_range(self.polynomial@, q) && in_range(self.error_polynomial@, q)
    }

    pub open spec fn wf(&self, p: SecurityParameters) -> bool {
        &&& ring_element(self.polynomial@, p.dimension as int, p.modulo as int)
        &&& ring_element(self.error_polynomial@, p.dimension as int, p.modulo as int)
    }
}

/// Every coefficient reduced into `[0, q)`.
pub open spec fn reduced(v: Seq<i64>, q: int) -> Seq<i64> {
    v.map_values(|x: i64| modq(x as int, q) as i64)
}

/// Coefficient `k` of `a b + e` in `Z_q[x] / (x^n + 1)`.
pub open spec fn ring_mul_add(a: Seq<i64>, b: Seq<i64>, e: Seq<i64>, n: int, q: int, k: int) -> int {
    modq(nega(a, b, n, k) + e[k] as int, q)
}

/// `pk` holds `b = a s + e (mod q)` for the secret of `sk` and the noise `e`.
pub open spec fn key_relation(pk: PublicKey, sk: PrivateKey, n: int, q: int, e: Seq<i64>) -> bool {
    forall|k: int|
        0 <= k < n ==> #[trigger] pk.error_polynomial@[k] == ring_mul_add(
            pk.polynomial@,
            sk.secret_vector@,
            e,
            n,
            q,
            k,
        )
}

/// `(preamble, scalars)` encrypts `pt` under `pk` with the ring element `r`
/// and the noise `e1`, `e2`: `preamble = a r + e1` and
/// `scalars = b r + e2 + pt * floor(q / 2)`, all modulo `q`.
pub open spec fn ciphertext_relation(
    pk: PublicKey,
    n: int,
    q: int,
    pt: Seq<i64>,
    r: Seq<i64>,
    e1: Seq<i64>,
    e2: Seq<i64>,
    preamble: Seq<i64>,
    scalars: Seq<i64>,
) -> bool {
    &&& preamble.len() == n
    &&& scalars.len() == n
    &&& forall|k: int|
        0 <= k < n ==> #[trigger] preamble[k] == ring_mul_add(pk.polynomial@, r, e1, n, q, k)
    &&& forall|k: int|
        0 <= k < n ==> #[trigger] scalars[k] == modq(
            nega(pk.error_polynomial@, r, n, k) + e2[k] as int + pt[k] * (q / 2),
            q,
        )
}

/// The bit that `decrypt` recovers at position `k`: the decoding of
/// `scalars[k] - (preamble s)[k]`.
pub open spec fn decrypt_bit(preamble: Seq<i64>, scalars: Seq<i64>, s: Seq<i64>, n: int, q: int, k: int) -> int {
    decode_bit(scalars[k] - nega(reduced(preamble, q), s, n, k), q)
}

/// The parameters used by default: n = 512, q = 3329.
pub fn setup() -> (r: SecurityParameters)
    ensures
        r.dimension == 512,
        r.modulo == 3329,
        r.valid(),
{
    SecurityParameters { dimension: 512, modulo: 3329 }
}

/// The noise distribution of this variant: a rounded normal distribution of
/// standard deviation one.
pub fn noise_table() -> (r: CdfTable)
    ensures
        r.wf(),
        r.bound() == 3,
{
    CdfTable::unit_normal()
}

/// The product of `a` and `b` in `Z_q[x] / (x^n + 1)`, computed as the raw
/// product reduced modulo `x^n + 1` and `q`.
pub fn ring_mul(a: &Vec<i64>, b: &Vec<i64>, n: usize, q: i64) -> (r: Vec<i64>)
    requires
        1 <= n <= LENGTH_LIMIT,
        a.len() == n,
        b.len() == n,
        bounded(a@),
        bounded(b@),
        q > 0,
    ensures
        r@.len() == n,
        in_range(r@, q as int),
        forall|k: int| 0 <= k < n ==> #[trigger] r@[k] == modq(nega(a@, b@, n as int, k), q as int),
{
    let p = multiply(a, b);
    proof {
        lemma_multiply_then_reduce(a@, b@, n as int, p@);
    }
    reduce(&p, n, q)
}

/// Adds the noise `e` to the residues `v` and reduces modulo `q`.
fn add_noise(v: &Vec<i64>, e: &Vec<i64>, q: i64) -> (r: Vec<i64>)
    requires
        v.len() == e.len(),
        in_range(v@, q as int),
        q > 0,
    ensures
        r@.len() == v.len(),
        in_range(r@, q as int),
        forall|k: int| 0 <= k < v.len() ==> #[trigger] r@[k] == modq(v@[k] + e@[k], q as int),
{
    let mut out: Vec<i64> = Vec::with_capacity(v.len());
    let mut k: usize = 0;
    while k < v.len()
        invariant
            k <= v.len(),
            v.len() == e.len(),
            in_range(v@, q as int),
            q > 0,
            out@.len() == k,
            in_range(out@, q as int),
            forall|k2: int| 0 <= k2 < k ==> #[trigger] out@[k2] == modq(v@[k2] + e@[k2], q as int),
        decreases v.len() - k,
    {
        let y = reduce_mod(e[k], q);
        proof {
            lemma_small_mod(v@[k as int] as nat, q as nat);
            lemma_add_mod_noop(v@[k as int] as int, e@[k as int] as int, q as int);
        }
        out.push(add_mod(v[k], y, q));
        k = k + 1;
    }
    out
}

/// Checks that `v` has `n` entries.
fn check_len(v: &Vec<i64>, n: usize) -> (r: Result<(), DimensionMismatch>)
    ensures
        r is Ok <==> v.len() == n,
        r matches Err(d) ==> d.expected == n && d.found == v.len(),
{
    if v.len() != n {
        Err(DimensionMismatch { expected: n, found: v.len() })
    } else {
        Ok(())
    }
}

proof fn lemma_mod_add_noise(x: int, e: int, q: int)
    requires
        q > 0,
    ensures
        modq(modq(x, q) + e, q) == modq(x + e, q),
{
    lemma_add_mod_noop(x, e, q);
    lemma_add_mod_noop(x % q, e, q);
    lemma_mod_twice(x, q);
}

proof fn lemma_reduced(v: Seq<i64>, r: Seq<i64>, q: int)
    requires
        r.len() == v.len(),
        forall|k: int| 0 <= k < v.len() ==> #[trigger] r[k] == modq(v[k] as int, q),
    ensures
        r == reduced(v, q),
{
    assert(r =~= reduced(v, q));
}

/// The key pair for the ring elements `a` and `s` and the noise `e`; `a` and
/// `s` are first reduced into `[0, q)`. Fails when a length is not `n`.
pub fn key_gen_with(params: &SecurityParameters, a: &Vec<i64>, s: &Vec<i64>, e: &Vec<i64>) -> (r: Result<
    (PublicKey, PrivateKey),
    DimensionMismatch,
>)
    requires
        params.valid(),
    ensures
        r is Ok <==> (a.len() == params.dimension && s.len() == params.dimension && e.len()
            == params.dimension),
        r matches Err(d) ==> d.expected != d.found,
        r matches Ok(keys) ==> {
            &&& keys.0.wf(*params)
            &&& keys.1.wf(*params)
            &&& keys.0.polynomial@ == reduced(a@, params.modulo as int)
            &&& keys.1.secret_vector@ == reduced(s@, params.modulo as int)
            &&& key_relation(keys.0, keys.1, params.dimension as int, params.modulo as int, e@)
        },
{
    let n = params.dimension as usize;
    let q = params.modulo;
    check_len(a, n)?;
    check_len(s, n)?;
    check_len(e, n)?;
    let a2 = modular(a, q);
    let s2 = modular(s, q);
    proof {
        lemma_in_range_bounded(a2@, q as int);
        lemma_in_range_bounded(s2@, q as int);
        lemma_reduced(a@, a2@, q as int);
        lemma_reduced(s@, s2@, q as int);
    }
    let product = ring_mul(&a2, &s2, n, q);
    let b = add_noise(&product, e, q);
    proof {
        assert forall|k: int| 0 <= k < n implies #[trigger] b@[k] == ring_mul_add(
            a2@,
            s2@,
            e@,
            n as int,
            q as int,
            k,
        ) by {
            lemma_mod_add_noise(nega(a2@, s2@, n as int, k), e@[k] as int, q as int);
        }
    }
    Ok((PublicKey { polynomial: a2, error_polynomial: b }, PrivateKey { secret_vector: s2 }))
}

/// A fresh key pair: `a` uniform over `[0, q)`, `s` with coefficients in
/// `{-1, 0, 1}` (stored reduced), and `e` drawn from this variant's noise table.
pub fn key_gen(params: &SecurityParameters, rng: &mut rand::rngs::StdRng) -> (r: (
    PublicKey,
    PrivateKey,
))
    requires
        params.valid(),
    ensures
        r.0.wf(*params),
        r.1.wf(*params),
        exists|s: Seq<i64>, e: Seq<i64>|
            s.len() == params.dimension && small(s, 1) && r.1.secret_vector@ == #[trigger] reduced(
                s,
                params.modulo as int,
            ) && e.len() == params.dimension && small(e, 3) && #[trigger] key_relation(
                r.0,
                r.1,
                params.dimension as int,
                params.modulo as int,
                e,
            ),
{
    let n = params.dimension as usize;
    let q = params.modulo;
    let a = sample_uniform_vector(rng, n, q);
    let s = gen_small_polynomial(rng, n);
    let table = noise_table();
    let e = sample_noise(rng, &table, n);
    match key_gen_with(params, &a, &s, &e) {
        Ok(keys) => {
            assert(small(s@, 1) && small(e@, 3));
            keys
        },
        Err(_) => {
            proof {
                assert(false);
            }
            (PublicKey { polynomial: Vec::new(), error_polynomial: Vec::new() }, PrivateKey {
                secret_vector: Vec::new(),
            })
        },
    }
}

/// `pt[k] * floor(q / 2)` for each bit of `pt`.
fn encode_bits(pt: &Vec<i64>, q: i64) -> (r: Vec<i64>)
    requires
        bits(pt@),
        q > 0,
    ensures
        r@.len() == pt.len(),
        forall|k: int| 0 <= k < pt.len() ==> #[trigger] r@[k] == pt@[k] * (q / 2),
{
    let mut out: Vec<i64> = Vec::with_capacity(pt.len());
    let mut k: usize = 0;
    while k < pt.len()
        invariant
            k <= pt.len(),
            bits(pt@),
            q > 0,
            out@.len() == k,
            forall|k2: int| 0 <= k2 < k ==> #[trigger] out@[k2] == pt@[k2] * (q / 2),
        decreases pt.len() - k,
    {
        let v: i64 = if pt[k] == 1 {
            q / 2
        } else {
            0
        };
        out.push(v);
        k = k + 1;
    }
    out
}

/// Encrypts the `n` bits of `plaintext` under `key` with the ring element `r`
/// (reduced into `[0, q)` first) and the noise `e1`, `e2`. Fails when a
/// length, the key's included, is not `n`.
pub fn encrypt_with(
    plaintext: &Vec<i64>,
    params: &SecurityParameters,
    key: &PublicKey,
    r: &Vec<i64>,
    e1: &Vec<i64>,
    e2: &Vec<i64>,
) -> (res: Result<(Vec<i64>, Vec<i64>), DimensionMismatch>)
    requires
        params.valid(),
        key.residues(params.modulo as int),
        bits(plaintext@),
    ensures
        res is Ok <==> (key.shape(*params) && plaintext.len() == params.dimension && r.len() == params.dimension
            && e1.len() == params.dimension && e2.len() == params.dimension),
        res matches Err(d) ==> d.expected != d.found,
        res matches Ok(ct) ==> ciphertext_relation(
            *key,
            params.dimension as int,
            params.modulo as int,
            plaintext@,
            reduced(r@, params.modulo as int),
            e1@,
            e2@,
            ct.0@,
            ct.1@,
        ),
{
    let n = params.dimension as usize;
    let q = params.modulo;
    check_len(&key.polynomial, n)?;
    check_len(&key.error_polynomial, n)?;
    check_len(plaintext, n)?;
    check_len(r, n)?;
    check_len(e1, n)?;
    check_len(e2, n)?;
    let r2 = modular(r, q);
    proof {
        lemma_in_range_bounded(r2@, q as int);
        lemma_in_range_bounded(key.polynomial@, q as int);
        lemma_in_range_bounded(key.error_polynomial@, q as int);
        lemma_reduced(r@, r2@, q as int);
    }
    let ar = ring_mul(&key.polynomial, &r2, n, q);
    let preamble = add_noise(&ar, e1, q);
    let br = ring_mul(&key.error_polynomial, &r2, n, q);
    let noisy = add_noise(&br, e2, q);
    let shifts = encode_bits(plaintext, q);
    let scalars = add_noise(&noisy, &shifts, q);
    proof {
        assert forall|k: int| 0 <= k < n implies #[trigger] preamble@[k] == ring_mul_add(
            key.polynomial@,
            r2@,
            e1@,
            n as int,
            q as int,
            k,
        ) by {
            lemma_mod_add_noise(nega(key.polynomial@, r2@, n as int, k), e1@[k] as int, q as int);
        }
        assert forall|k: int| 0 <= k < n implies #[trigger] scalars@[k] == modq(
            nega(key.error_polynomial@, r2@, n as int, k) + e2@[k] as int + plaintext@[k] * (q
                / 2),
            q as int,
        ) by {
            let x = nega(key.error_polynomial@, r2@, n as int, k);
            lemma_mod_add_noise(x, e2@[k] as int, q as int);
            lemma_mod_add_noise(x + e2@[k] as int, shifts@[k] as int, q as int);
        }
    }
    Ok((preamble, scalars))
}

/// Encrypts the `n` bits of `plaintext` under `key`, with `r`, `e1` and `e2`
/// drawn from this variant's noise table. Fails when the key or
/// `plaintext` does not have `n` coefficients.
pub fn encrypt(
    plaintext: &Vec<i64>,
    params: &SecurityParameters,
    key: &PublicKey,
    rng: &mut rand::rngs::StdRng,
) -> (res: Result<(Vec<i64>, Vec<i64>), DimensionMismatch>)
    requires
        params.valid(),
        key.residues(params.modulo as int),
        bits(plaintext@),
    ensures
        res is Ok <==> (key.shape(*params) && plaintext.len() == params.dimension),
        res matches Err(d) ==> d.expected == params.dimension && d.found != params.dimension,
        res matches Ok(ct) ==> exists|r: Seq<i64>, e1: Seq<i64>, e2: Seq<i64>|
            #[trigger] ciphertext_relation(
                *key,
                params.dimension as int,
                params.modulo as int,
                plaintext@,
                reduced(r, params.modulo as int),
                e1,
                e2,
                ct.0@,
                ct.1@,
            ) && r.len() == params.dimension && small(r, 3) && e1.len() == params.dimension
                && small(e1, 3) && e2.len() == params.dimension && small(e2, 3),
{
    let n = params.dimension as usize;
    check_len(&key.polynomial, n)?;
    check_len(&key.error_polynomial, n)?;
    check_len(plaintext, n)?;
    let table = noise_table();
    let e1 = sample_noise(rng, &table, n);
    let e2 = sample_noise(rng, &table, n);
    let r = sample_noise(rng, &table, n);
    match encrypt_with(plaintext, params, key, &r, &e1, &e2) {
        Ok(ct) => {
            assert(small(r@, 3) && small(e1@, 3) && small(e2@, 3));
            Ok(ct)
        },
        Err(d) => {
            proof {
                assert(false);
            }
            Err(d)
        },
    }
}

/// Recovers the `n` bits encrypted in `(preamble, scalars)`. Fails when the
/// secret or either part does not have `n` coefficients.
pub fn decrypt(
    preamble: &Vec<i64>,
    scalars: &Vec<i64>,
    params: &SecurityParameters,
    key: &PrivateKey,
) -> (res: Result<Vec<i64>, DimensionMismatch>)
    requires
        params.valid(),
        in_range(key.secret_vector@, params.modulo as int),
    ensures
        res is Ok <==> (key.secret_vector.len() == params.dimension && preamble.len()
            == params.dimension && scalars.len() == params.dimension),
        res matches Err(d) ==> d.expected != d.found,
        res matches Ok(out) ==> {
            &&& out@.len() == params.dimension
            &&& bits(out@)
            &&& forall|k: int|
                0 <= k < params.dimension ==> #[trigger] out@[k] == decrypt_bit(
                    preamble@,
                    scalars@,
                    key.secret_vector@,
                    params.dimension as int,
                    params.modulo as int,
                    k,
                )
        },
{
    let n = params.dimension as usize;
    let q = params.modulo;
    check_len(&key.secret_vector, n)?;
    check_len(preamble, n)?;
    check_len(scalars, n)?;
    let p = modular(preamble, q);
    proof {
        lemma_in_range_bounded(p@, q as int);
        lemma_in_range_bounded(key.secret_vector@, q as int);
        lemma_reduced(preamble@, p@, q as int);
    }
    let ps = ring_mul(&p, &key.secret_vector, n, q);
    let mut out: Vec<i64> = Vec::with_capacity(n);
    let mut k: usize = 0;
    while k < n
        invariant
            k <= n,
            n == params.dimension,
            q == params.modulo,
            q > 0,
            scalars.len() == n,
            ps@.len() == n,
            in_range(ps@, q as int),
            p@ == reduced(preamble@, q as int),
            forall|k2: int|
                0 <= k2 < n ==> #[trigger] ps@[k2] == modq(
                    nega(p@, key.secret_vector@, n as int, k2),
                    q as int,
                ),
            out@.len() == k,
            bits(out@),
            forall|k2: int|
                0 <= k2 < k ==> #[trigger] out@[k2] == decrypt_bit(
                    preamble@,
                    scalars@,
                    key.secret_vector@,
                    n as int,
                    q as int,
                    k2,
                ),
        decreases n - k,
    {
        let noisy = sub_mod(reduce_mod(scalars[k], q), ps[k], q);
        proof {
            let x = nega(p@, key.secret_vector@, n as int, k as int);
            lemma_sub_mod_noop(scalars@[k as int] as int, x, q as int);
            lemma_mod_twice(x, q as int);
            lemma_small_mod(noisy as nat, q as nat);
        }
        out.push(threshold_bit(noisy, q));
        k = k + 1;
    }
    Ok(out)
}

/// The noise that decryption sees at coefficient `k`: `e r + e2 - e1 s`,
/// for the small representatives `r` and `s`.
pub open spec fn total_noise(
    e: Seq<i64>,
    r: Seq<i64>,
    e1: Seq<i64>,
    e2: Seq<i64>,
    s: Seq<i64>,
    n: int,
    k: int,
) -> int {
    nega(e, r, n, k) + e2[k] as int - nega(e1, s, n, k)
}

proof fn lemma_round_trip_at(
    params: SecurityParameters,
    pk: PublicKey,
    sk: PrivateKey,
    s: Seq<i64>,
    e: Seq<i64>,
    pt: Seq<i64>,
    r: Seq<i64>,
    e1: Seq<i64>,
    e2: Seq<i64>,
    preamble: Seq<i64>,
    scalars: Seq<i64>,
    k: int,
)
    requires
        params.valid(),
        pk.wf(params),
        sk.wf(params),
        s.len() == params.dimension,
        sk.secret_vector@ == reduced(s, params.modulo as int),
        e.len() == params.dimension,
        key_relation(pk, sk, params.dimension as int, params.modulo as int, e),
        bits(pt),
        pt.len() == params.dimension,
        r.len() == params.dimension,
        e1.len() == params.dimension,
        e2.len() == params.dimension,
        ciphertext_relation(
            pk,
            params.dimension as int,
            params.modulo as int,
            pt,
            reduced(r, params.modulo as int),
            e1,
            e2,
            preamble,
            scalars,
        ),
        0 <= k < params.dimension,
        -margin(params.modulo as int) < total_noise(e, r, e1, e2, s, params.dimension as int, k)
            < margin(params.modulo as int),
    ensures
        decrypt_bit(
            preamble,
            scalars,
            sk.secret_vector@,
            params.dimension as int,
            params.modulo as int,
            k,
        ) == pt[k],
{
    let n = params.dimension as int;
    let q = params.modulo as int;
    let h = q / 2;
    let a = pk.polynomial@;
    let b = pk.error_polynomial@;
    let sv = sk.secret_vector@;
    let rv = reduced(r, q);
    let af = seq_fn(a);
    let sf = seq_fn(sv);
    let rf = seq_fn(rv);
    let as_f = |j: int| ring_coeff(af, sf, n, j);
    let ar_f = |j: int| ring_coeff(af, rf, n, j);
    let ef = seq_fn(e);
    let e1f = seq_fn(e1);
    // The preamble is already reduced.
    assert(reduced(preamble, q) =~= preamble) by {
        assert forall|j: int| 0 <= j < n implies #[trigger] reduced(preamble, q)[j] == preamble[j] by {
            lemma_small_mod(preamble[j] as nat, q as nat);
        }
    }
    // b == a s + e and preamble == a r + e1, coefficientwise modulo q.
    assert forall|j: int| 0 <= j < n implies #[trigger] seq_fn(b)(j) % q == (as_f(j) + ef(j)) % q by {
        lemma_nega_ring_coeff(a, sv, n, j);
        lemma_mod_twice(as_f(j) + ef(j), q);
    }
    assert forall|j: int| 0 <= j < n implies #[trigger] seq_fn(preamble)(j) % q == (ar_f(j) + e1f(j))
        % q by {
        lemma_nega_ring_coeff(a, rv, n, j);
        lemma_mod_twice(ar_f(j) + e1f(j), q);
    }
    lemma_ring_coeff_mod_left(seq_fn(b), |j: int| as_f(j) + ef(j), rf, n, k, q);
    lemma_ring_coeff_add(as_f, ef, rf, n, k);
    lemma_ring_coeff_mod_left(seq_fn(preamble), |j: int| ar_f(j) + e1f(j), sf, n, k, q);
    lemma_ring_coeff_add(ar_f, e1f, sf, n, k);
    // The reduced r and s are congruent to their small representatives.
    assert forall|j: int| 0 <= j < n implies #[trigger] rf(j) % q == seq_fn(r)(j) % q by {
        lemma_mod_twice(r[j] as int, q);
    }
    assert forall|j: int| 0 <= j < n implies #[trigger] sf(j) % q == seq_fn(s)(j) % q by {
        lemma_mod_twice(s[j] as int, q);
    }
    lemma_ring_coeff_mod_right(ef, rf, seq_fn(r), n, k, q);
    lemma_ring_coeff_mod_right(e1f, sf, seq_fn(s), n, k, q);
    lemma_nega_ring_coeff(e, r, n, k);
    lemma_nega_ring_coeff(e1, s, n, k);
    // (a s) r == (a r) s
    lemma_ring_rotate(af, sf, rf, n, k);
    let t = ring_coeff(as_f, rf, n, k);
    assert(t == ring_coeff(ar_f, sf, n, k));
    let x = nega(b, rv, n, k);
    let y = nega(preamble, sv, n, k);
    lemma_nega_ring_coeff(b, rv, n, k);
    lemma_nega_ring_coeff(preamble, sv, n, k);
    let ne = nega(e, r, n, k);
    let ne1 = nega(e1, s, n, k);
    assert(x % q == (t + ne) % q) by {
        lemma_add_mod_noop(t, ring_coeff(ef, rf, n, k), q);
        lemma_add_mod_noop(t, ne, q);
    }
    assert(y % q == (t + ne1) % q) by {
        lemma_add_mod_noop(t, ring_coeff(e1f, sf, n, k), q);
        lemma_add_mod_noop(t, ne1, q);
    }
    // scalars[k] - y == pt[k] * h + noise  (mod q)
    let w = e2[k] as int + pt[k] * h;
    let v = scalars[k] - y;
    lemma_sub_mod_noop(scalars[k] as int, y, q);
    lemma_mod_twice(x + w, q);
    lemma_add_mod_noop(x, w, q);
    lemma_add_mod_noop(t + ne, w, q);
    assert(x + e2[k] as int + pt[k] * h == x + w);
    lemma_sub_mod_noop(t + ne + w, t + ne1, q);
    lemma_sub_mod_noop(x + w, y, q);
    assert(v % q == (t + ne + w - (t + ne1)) % q);
    let en = total_noise(e, r, e1, e2, s, n, k);
    assert(t + ne + w - (t + ne1) == pt[k] * h + en);
    lemma_decode_noisy_bit(pt[k] as int, en, q);
}

/// Decryption inverts encryption when the noise stays inside the decoding
/// margin: for a key pair made from the secret `s` and the noise `e`, an
/// `n`-bit plaintext `pt`, and its ciphertext made with `r`, `e1` and `e2`,
/// if every coefficient of `e r + e2 - e1 s` has magnitude below
/// `margin(q)`, decryption returns `pt`.
pub proof fn lemma_round_trip(
    params: SecurityParameters,
    pk: PublicKey,
    sk: PrivateKey,
    s: Seq<i64>,
    e: Seq<i64>,
    pt: Seq<i64>,
    r: Seq<i64>,
    e1: Seq<i64>,
    e2: Seq<i64>,
    preamble: Seq<i64>,
    scalars: Seq<i64>,
)
    requires
        params.valid(),
        pk.wf(params),
        sk.wf(params),
        s.len() == params.dimension,
        sk.secret_vector@ == reduced(s, params.modulo as int),
        e.len() == params.dimension,
        key_relation(pk, sk, params.dimension as int, params.modulo as int, e),
        bits(pt),
        pt.len() == params.dimension,
        r.len() == params.dimension,
        e1.len() == params.dimension,
        e2.len() == params.dimension,
        ciphertext_relation(
            pk,
            params.dimension as int,
            params.modulo as int,
            pt,
            reduced(r, params.modulo as int),
            e1,
            e2,
            preamble,
            scalars,
        ),
        forall|k: int|
            0 <= k < params.dimension ==> -margin(params.modulo as int) < #[trigger] total_noise(
                e,
                r,
                e1,
                e2,
                s,
                params.dimension as int,
                k,
            ) < margin(params.modulo as int),
    ensures
        forall|k: int|
            0 <= k < params.dimension ==> #[trigger] decrypt_bit(
                preamble,
                scalars,
                sk.secret_vector@,
                params.dimension as int,
                params.modulo as int,
                k,
            ) == pt[k],
{
    assert forall|k: int| 0 <= k < params.dimension implies #[trigger] decrypt_bit(
        preamble,
        scalars,
        sk.secret_vector@,
        params.dimension as int,
        params.modulo as int,
        k,
    ) == pt[k] by {
        lemma_round_trip_at(params, pk, sk, s, e, pt, r, e1, e2, preamble, scalars, k);
    }
}

} // verus!
