//! Plain (unstructured) LWE encryption: a uniform public matrix, a uniform
//! secret vector, and bitwise encryption with a binary mask per bit.
use vstd::prelude::*;
use vstd::arithmetic::div_mod::*;
use vstd::arithmetic::mul::*;
use crate::sums::{sum, lemma_sum_add, lemma_sum_ext, lemma_sum_mod, lemma_sum_bound};
use crate::modular::{modq, reduce_mod, add_mod, sub_mod};
use crate::linalg::{
    small, DimensionMismatch, ENTRY_LIMIT, LENGTH_LIMIT, bounded, in_range, is_matrix, matrix_in_range,
    column, dot, check_matrix, modular, modular_mat, vector_matrix, matrix_product, column_of,
    dot_product, lemma_in_range_bounded, lemma_matrix_in_range_bounded, lemma_vector_matrix_assoc,
};
use crate::noise::{CdfTable, sample_uniform_vector, sample_uniform_matrix, sample_noise};
use crate::encoding::{bits, decode_bit, margin, threshold_bit, lemma_decode_noisy_bit};

verus! {

/// The dimensions of the scheme: secret length `dimensions` (n), number of
/// samples `rank` (m), and modulus `modulo` (q).
pub struct SecurityParameters {
    pub dimensions: i64,
    pub rank: i64,
    pub modulo: i64,
}

pub struct PublicKey {
    /// The uniform `n` by `m` matrix `A`.
    pub matrix: Vec<Vec<i64>>,
    /// `b = s A + e (mod q)`, of length `m`.
    pub public_vector: Vec<i64>,
}

pub struct PrivateKey {
    /// The secret `s`, of length `n`.
    pub secret_vector: Vec<i64>,
}

impl SecurityParameters {
    /// Sizes that keep every intermediate value within `i64`.
    pub open spec fn valid(&self) -> bool {
        &&& 1 <= self.dimensions <= LENGTH_LIMIT
        &&& 1 <= self.rank <= LENGTH_LIMIT
        &&& 2 <= self.modulo <= ENTRY_LIMIT
    }
}

impl PublicKey {
    /// An `n` by `m` matrix and a vector of `m` entries.
    pub open spec fn shape(&self, p: SecurityParameters) -> bool {
        &&& is_matrix(self.matrix@, p.dimensions as int, p.rank as int)
        &&& self.public_vector@.len() == p.rank
    }

    /// Every entry is a residue modulo `q`.
    pub open spec fn residues(&self, q: int) -> bool {
        &&& matrix_in_range(self.matrix@, q)
        &&& in_range(self.public_vector@, q)
    }

    pub open spec fn wf(&self, p: SecurityParameters) -> bool {
        self.shape(p) && self.residues(p.modulo as int)
    }
}

impl PrivateKey {
    pub open spec fn wf(&self, p: SecurityParameters) -> bool {
        &&& self.secret_vector@.len() == p.dimensions
        &&& in_range(self.secret_vector@, p.modulo as int)
    }
}

/// `pk` holds `b = s A + e (mod q)` for the secret of `sk` and the noise `e`.
pub open spec fn key_relation(pk: PublicKey, sk: PrivateKey, q: int, e: Seq<i64>) -> bool {
    forall|j: int|
        0 <= j < pk.public_vector@.len() ==> #[trigger] pk.public_vector@[j] == modq(
            dot(sk.secret_vector@, column(pk.matrix@, j)) + e[j] as int,
            q,
        )
}

/// Every row of `x` is a bit vector.
pub open spec fn binary_matrix(x: Seq<Vec<i64>>) -> bool {
    forall|i: int| 0 <= i < x.len() ==> bits((#[trigger] x[i])@)
}

/// `(preamble, scalars)` encrypts `pt` under `pk` with the mask `x` and the
/// noise `noise`: `preamble = A x (mod q)` and
/// `scalars = b x + noise + pt * floor(q / 2) (mod q)`.
pub open spec fn ciphertext_relation(
    pk: PublicKey,
    q: int,
    pt: Seq<i64>,
    x: Seq<Vec<i64>>,
    noise: Seq<i64>,
    preamble: Seq<Vec<i64>>,
    scalars: Seq<i64>,
) -> bool {
    &&& is_matrix(preamble, pk.matrix@.len() as int, pt.len() as int)
    &&& scalars.len() == pt.len()
    &&& forall|i: int, l: int|
        0 <= i < pk.matrix@.len() && 0 <= l < pt.len() ==> #[trigger] preamble[i]@[l] == modq(
            dot(pk.matrix@[i]@, column(x, l)),
            q,
        )
    &&& forall|l: int|
        0 <= l < pt.len() ==> #[trigger] scalars[l] == modq(
            dot(pk.public_vector@, column(x, l)) + noise[l] as int + pt[l] * (q / 2),
            q,
        )
}

/// The bit that `decrypt` recovers at position `l`: the decoding of
/// `scalars[l] - s . (preamble column l mod q)`.
pub open spec fn decrypt_bit(
    preamble: Seq<Vec<i64>>,
    scalars: Seq<i64>,
    s: Seq<i64>,
    q: int,
    l: int,
) -> int {
    decode_bit(scalars[l] - sum(s.len(), |i: int| s[i] as int * modq(preamble[i]@[l] as int, q)), q)
}

/// The parameters used by default: n = 128, m = 594, q = 16411.
pub fn setup() -> (r: SecurityParameters)
    ensures
        r.dimensions == 128,
        r.rank == 594,
        r.modulo == 16411,
        r.valid(),
{
    SecurityParameters { dimensions: 128, rank: 594, modulo: 16411 }
}

/// Parameters with the given dimensions, rank and modulus.
pub fn modify_params(_dimensions: i64, _rank: i64, _modulo: i64) -> (r: SecurityParameters)
    ensures
        r.dimensions == _dimensions,
        r.rank == _rank,
        r.modulo == _modulo,
{
    SecurityParameters { dimensions: _dimensions, rank: _rank, modulo: _modulo }
}

/// The noise distribution of this variant: values in `{-1, 0, 1}`.
pub fn noise_table() -> (r: CdfTable)
    ensures
        r.wf(),
        r.bound() == 1,
{
    CdfTable::ternary()
}

/// The key pair for the matrix `a`, the secret `s` and the noise `e`; `a`
/// and `s` are first reduced into `[0, q)`. Fails when a dimension differs
/// from the parameters.
pub fn key_gen_with(params: &SecurityParameters, a: &Vec<Vec<i64>>, s: &Vec<i64>, e: &Vec<i64>) -> (r:
    Result<(PublicKey, PrivateKey), DimensionMismatch>)
    requires
        params.valid(),
    ensures
        r is Ok <==> (is_matrix(a@, params.dimensions as int, params.rank as int) && s.len()
            == params.dimensions && e.len() == params.rank),
        r matches Err(d) ==> d.expected != d.found,
        r matches Ok(keys) ==> {
            &&& keys.0.wf(*params)
            &&& keys.1.wf(*params)
            &&& forall|i: int, j: int|
                0 <= i < params.dimensions && 0 <= j < params.rank ==> #[trigger] keys.0.matrix@[i]@[j]
                    == modq(a@[i]@[j] as int, params.modulo as int)
            &&& forall|i: int|
                0 <= i < params.dimensions ==> #[trigger] keys.1.secret_vector@[i] == modq(
                    s@[i] as int,
                    params.modulo as int,
                )
            &&& key_relation(keys.0, keys.1, params.modulo as int, e@)
        },
{
    let n = params.dimensions as usize;
    let m = params.rank as usize;
    let q = params.modulo;
    match check_matrix(a, n, m) {
        Ok(()) => {},
        Err(d) => {
            return Err(d);
        },
    }
    if s.len() != n {
        return Err(DimensionMismatch { expected: n, found: s.len() });
    }
    if e.len() != m {
        return Err(DimensionMismatch { expected: m, found: e.len() });
    }
    let a2 = modular_mat(a, q);
    let s2 = modular(s, q);
    proof {
        lemma_matrix_in_range_bounded(a2@, q as int);
        lemma_in_range_bounded(s2@, q as int);
    }
    let sa = vector_matrix(&s2, &a2, m);
    let mut b: Vec<i64> = Vec::with_capacity(m);
    let mut j: usize = 0;
    while j < m
        invariant
            j <= m,
            m == params.rank,
            sa@.len() == m,
            e@.len() == m,
            2 <= q <= ENTRY_LIMIT,
            forall|k: int| 0 <= k < m ==> #[trigger] sa@[k] == dot(s2@, column(a2@, k)),
            b@.len() == j,
            in_range(b@, q as int),
            forall|k: int|
                0 <= k < j ==> #[trigger] b@[k] == modq(
                    dot(s2@, column(a2@, k)) + e@[k] as int,
                    q as int,
                ),
        decreases m - j,
    {
        let x = reduce_mod(sa[j], q);
        let y = reduce_mod(e[j], q);
        proof {
            lemma_add_mod_noop(sa@[j as int] as int, e@[j as int] as int, q as int);
        }
        b.push(add_mod(x, y, q));
        j = j + 1;
    }
    let pk = PublicKey { matrix: a2, public_vector: b };
    let sk = PrivateKey { secret_vector: s2 };
    Ok((pk, sk))
}

/// A fresh key pair: `A` and `s` uniform over `[0, q)`, and `e` drawn from
/// this variant's noise table.
pub fn key_gen(params: &SecurityParameters, rng: &mut rand::rngs::StdRng) -> (r: (
    PublicKey,
    PrivateKey,
))
    requires
        params.valid(),
    ensures
        r.0.wf(*params),
        r.1.wf(*params),
        exists|e: Seq<i64>|
            e.len() == params.rank && small(e, 1) && #[trigger] key_relation(
                r.0,
                r.1,
                params.modulo as int,
                e,
            ),
{
    let n = params.dimensions as usize;
    let m = params.rank as usize;
    let q = params.modulo;
    let a = sample_uniform_matrix(rng, n, m, q);
    let s = sample_uniform_vector(rng, n, q);
    let table = noise_table();
    let e = sample_noise(rng, &table, m);
    match key_gen_with(params, &a, &s, &e) {
        Ok(keys) => {
            assert(small(e@, 1));
            keys
        },
        Err(_) => {
            proof {
                assert(false);
            }
            (PublicKey { matrix: Vec::new(), public_vector: Vec::new() }, PrivateKey {
                secret_vector: Vec::new(),
            })
        },
    }
}

/// Encrypts each bit of `plain_text` under `public_key` with the binary mask
/// `x` (`m` rows, one column per bit) and one noise value per bit. Fails
/// when the key, `x` or `noise` has another shape.
pub fn encrypt_with(
    plain_text: &Vec<i64>,
    public_key: &PublicKey,
    params: &SecurityParameters,
    x: &Vec<Vec<i64>>,
    noise: &Vec<i64>,
) -> (r: Result<(Vec<Vec<i64>>, Vec<i64>), DimensionMismatch>)
    requires
        params.valid(),
        public_key.residues(params.modulo as int),
        bits(plain_text@),
        binary_matrix(x@),
    ensures
        r is Ok <==> (public_key.shape(*params) && is_matrix(
            x@,
            params.rank as int,
            plain_text.len() as int,
        ) && noise.len() == plain_text.len()),
        r matches Err(d) ==> d.expected != d.found,
        r matches Ok(ct) ==> ciphertext_relation(
            *public_key,
            params.modulo as int,
            plain_text@,
            x@,
            noise@,
            ct.0@,
            ct.1@,
        ),
{
    let n = params.dimensions as usize;
    let m = params.rank as usize;
    let q = params.modulo;
    let len = plain_text.len();
    check_matrix(&public_key.matrix, n, m)?;
    if public_key.public_vector.len() != m {
        return Err(DimensionMismatch { expected: m, found: public_key.public_vector.len() });
    }
    check_matrix(x, m, len)?;
    if noise.len() != len {
        return Err(DimensionMismatch { expected: len, found: noise.len() });
    }
    proof {
        lemma_matrix_in_range_bounded(public_key.matrix@, q as int);
        lemma_in_range_bounded(public_key.public_vector@, q as int);
        assert forall|i: int| 0 <= i < x@.len() implies bounded((#[trigger] x@[i])@) by {
            assert(bits(x@[i]@));
        }
    }
    let ax = matrix_product(&public_key.matrix, x, len);
    let preamble = modular_mat(&ax, q);
    let bx = vector_matrix(&public_key.public_vector, x, len);
    let half = q / 2;
    let mut scalars: Vec<i64> = Vec::with_capacity(len);
    let mut l: usize = 0;
    while l < len
        invariant
            l <= len,
            len == plain_text.len(),
            bits(plain_text@),
            half == q / 2,
            2 <= q <= ENTRY_LIMIT,
            bx@.len() == len,
            noise@.len() == len,
            forall|k: int|
                0 <= k < len ==> #[trigger] bx@[k] == dot(public_key.public_vector@, column(x@, k)),
            scalars@.len() == l,
            forall|k: int|
                0 <= k < l ==> #[trigger] scalars@[k] == modq(
                    dot(public_key.public_vector@, column(x@, k)) + noise@[k] as int + plain_text@[k]
                        * (q / 2),
                    q as int,
                ),
        decreases len - l,
    {
        let shift: i64 = if plain_text[l] == 1 {
            half
        } else {
            0
        };
        assert(shift == plain_text@[l as int] * (q / 2));
        let u = add_mod(reduce_mod(bx[l], q), reduce_mod(noise[l], q), q);
        let v = reduce_mod(shift, q);
        proof {
            let xb = bx@[l as int] as int;
            let w = noise@[l as int] as int;
            lemma_add_mod_noop(xb, w, q as int);
            lemma_add_mod_noop(xb + w, shift as int, q as int);
        }
        scalars.push(add_mod(u, v, q));
        l = l + 1;
    }
    Ok((preamble, scalars))
}

/// Encrypts each bit of `plain_text` under `public_key` with a fresh uniform
/// binary mask and noise from this variant's table. Fails when the key does
/// not have the shape of the parameters.
pub fn encrypt(
    plain_text: &Vec<i64>,
    public_key: &PublicKey,
    params: &SecurityParameters,
    rng: &mut rand::rngs::StdRng,
) -> (r: Result<(Vec<Vec<i64>>, Vec<i64>), DimensionMismatch>)
    requires
        params.valid(),
        public_key.residues(params.modulo as int),
        bits(plain_text@),
    ensures
        r is Ok <==> public_key.shape(*params),
        r matches Err(d) ==> d.expected != d.found,
        r matches Ok(ct) ==> exists|x: Seq<Vec<i64>>, noise: Seq<i64>|
            is_matrix(x, params.rank as int, plain_text.len() as int) && binary_matrix(x)
                && noise.len() == plain_text.len() && small(noise, 1)
                && #[trigger] ciphertext_relation(
                *public_key,
                params.modulo as int,
                plain_text@,
                x,
                noise,
                ct.0@,
                ct.1@,
            ),
{
    let n = params.dimensions as usize;
    let m = params.rank as usize;
    check_matrix(&public_key.matrix, n, m)?;
    if public_key.public_vector.len() != m {
        return Err(DimensionMismatch { expected: m, found: public_key.public_vector.len() });
    }
    let x = sample_uniform_matrix(rng, m, plain_text.len(), 2);
    assert forall|i: int| 0 <= i < x@.len() implies bits((#[trigger] x@[i])@) by {
        assert(in_range(x@[i]@, 2));
    }
    let table = noise_table();
    let noise = sample_noise(rng, &table, plain_text.len());
    match encrypt_with(plain_text, public_key, params, &x, &noise) {
        Ok(ct) => {
            assert(small(noise@, 1));
            Ok(ct)
        },
        Err(d) => {
            proof {
                assert(false);
            }
            Err(d)
        },
    }
}

/// Recovers the bits encrypted in `(preamble, scalars)`. Fails when the
/// secret does not have `n` entries or the preamble does not have `n` rows
/// of one entry per scalar.
pub fn decrypt(
    preamble: &Vec<Vec<i64>>,
    scalars: &Vec<i64>,
    private_key: &PrivateKey,
    params: &SecurityParameters,
) -> (r: Result<Vec<i64>, DimensionMismatch>)
    requires
        params.valid(),
        in_range(private_key.secret_vector@, params.modulo as int),
    ensures
        r is Ok <==> (private_key.secret_vector.len() == params.dimensions && is_matrix(
            preamble@,
            params.dimensions as int,
            scalars.len() as int,
        )),
        r matches Err(d) ==> d.expected != d.found,
        r matches Ok(bits_out) ==> {
            &&& bits_out@.len() == scalars.len()
            &&& bits(bits_out@)
            &&& forall|l: int|
                0 <= l < scalars.len() ==> #[trigger] bits_out@[l] == decrypt_bit(
                    preamble@,
                    scalars@,
                    private_key.secret_vector@,
                    params.modulo as int,
                    l,
                )
        },
{
    let n = params.dimensions as usize;
    let q = params.modulo;
    let len = scalars.len();
    if private_key.secret_vector.len() != n {
        return Err(DimensionMismatch { expected: n, found: private_key.secret_vector.len() });
    }
    check_matrix(preamble, n, len)?;
    let p = modular_mat(preamble, q);
    let s = &private_key.secret_vector;
    proof {
        lemma_in_range_bounded(s@, q as int);
    }
    let mut out: Vec<i64> = Vec::with_capacity(len);
    let mut l: usize = 0;
    while l < len
        invariant
            l <= len,
            len == scalars.len(),
            n == params.dimensions,
            n <= LENGTH_LIMIT,
            s@.len() == n,
            bounded(s@),
            2 <= q <= ENTRY_LIMIT,
            q == params.modulo,
            is_matrix(preamble@, n as int, len as int),
            p@.len() == n,
            forall|i: int| 0 <= i < n ==> (#[trigger] p@[i])@.len() == preamble@[i]@.len(),
            forall|i: int, j: int|
                0 <= i < n && 0 <= j < len ==> (#[trigger] p@[i]@[j]) == modq(
                    preamble@[i]@[j] as int,
                    q as int,
                ),
            matrix_in_range(p@, q as int),
            out@.len() == l,
            bits(out@),
            forall|k: int|
                0 <= k < l ==> #[trigger] out@[k] == decrypt_bit(preamble@, scalars@, s@, q as int, k),
        decreases len - l,
    {
        let c = column_of(&p, l);
        assert(bounded(c@)) by {
            assert forall|i: int| 0 <= i < c@.len() implies -ENTRY_LIMIT < #[trigger] c@[i]
                < ENTRY_LIMIT by {
                assert(in_range(p@[i]@, q as int));
            }
        }
        let inner = dot_product(s, &c);
        proof {
            lemma_sum_ext(
                n as nat,
                |i: int| s@[i] as int * c@[i] as int,
                |i: int| s@[i] as int * modq(preamble@[i]@[l as int] as int, q as int),
            );
            lemma_sub_mod_noop(scalars@[l as int] as int, inner as int, q as int);
        }
        let noisy = sub_mod(reduce_mod(scalars[l], q), reduce_mod(inner, q), q);
        proof {
            lemma_small_mod(noisy as nat, q as nat);
        }
        out.push(threshold_bit(noisy, q));
        l = l + 1;
    }
    Ok(out)
}

proof fn lemma_round_trip_at(
    params: SecurityParameters,
    pk: PublicKey,
    sk: PrivateKey,
    e: Seq<i64>,
    pt: Seq<i64>,
    x: Seq<Vec<i64>>,
    noise: Seq<i64>,
    preamble: Seq<Vec<i64>>,
    scalars: Seq<i64>,
    l: int,
)
    requires
        params.valid(),
        pk.wf(params),
        sk.wf(params),
        e.len() == params.rank,
        key_relation(pk, sk, params.modulo as int, e),
        bits(pt),
        is_matrix(x, params.rank as int, pt.len() as int),
        noise.len() == pt.len(),
        ciphertext_relation(pk, params.modulo as int, pt, x, noise, preamble, scalars),
        0 <= l < pt.len(),
        -margin(params.modulo as int) < dot(e, column(x, l)) + noise[l] < margin(
            params.modulo as int,
        ),
    ensures
        decrypt_bit(preamble, scalars, sk.secret_vector@, params.modulo as int, l) == pt[l],
{
    let q = params.modulo as int;
    let n = params.dimensions as nat;
    let m = params.rank as nat;
    let s = sk.secret_vector@;
    let a = pk.matrix@;
    let b = pk.public_vector@;
    let col = column(x, l);
    let h = q / 2;
    let t = sum(m, |j: int| dot(s, column(a, j)) * col[j] as int);
    let en = dot(e, col);
    // (s A) x == s (A x)
    lemma_vector_matrix_assoc(s, a, col);
    // s . (A x mod q) == s . (A x)  (mod q)
    let sp = sum(n, |i: int| s[i] as int * modq(preamble[i]@[l] as int, q));
    assert forall|i: int| 0 <= i < n implies #[trigger] (s[i] as int * modq(
        preamble[i]@[l] as int,
        q,
    )) % q == (s[i] as int * dot(a[i]@, col)) % q by {
        lemma_mod_twice(dot(a[i]@, col), q);
        lemma_mul_mod_noop_right(s[i] as int, dot(a[i]@, col), q);
    }
    lemma_sum_mod(
        n,
        |i: int| s[i] as int * modq(preamble[i]@[l] as int, q),
        |i: int| s[i] as int * dot(a[i]@, col),
        q,
    );
    assert(sp % q == t % q);
    // b . x == (s A) . x + e . x  (mod q)
    assert forall|j: int| 0 <= j < m implies #[trigger] (b[j] as int * col[j] as int) % q == ((dot(
        s,
        column(a, j),
    ) + e[j] as int) * col[j] as int) % q by {
        lemma_mul_mod_noop_left(dot(s, column(a, j)) + e[j] as int, col[j] as int, q);
    }
    lemma_sum_mod(
        m,
        |j: int| b[j] as int * col[j] as int,
        |j: int| (dot(s, column(a, j)) + e[j] as int) * col[j] as int,
        q,
    );
    assert forall|j: int| 0 <= j < m implies #[trigger] ((dot(s, column(a, j)) + e[j] as int)
        * col[j] as int) == dot(s, column(a, j)) * col[j] as int + e[j] as int * col[j] as int by {
        lemma_mul_is_distributive_add_other_way(col[j] as int, dot(s, column(a, j)), e[j] as int);
    }
    lemma_sum_add(
        m,
        |j: int| dot(s, column(a, j)) * col[j] as int,
        |j: int| e[j] as int * col[j] as int,
        |j: int| (dot(s, column(a, j)) + e[j] as int) * col[j] as int,
    );
    let xb = dot(b, col);
    assert(xb % q == (t + en) % q);
    // scalars[l] - sp == pt[l] * h + e . x  (mod q)
    let ph = noise[l] as int + pt[l] * h;
    let v = scalars[l] - sp;
    assert(xb + noise[l] as int + pt[l] * h == xb + ph);
    lemma_sub_mod_noop(scalars[l] as int, sp, q);
    lemma_mod_twice(xb + ph, q);
    lemma_add_mod_noop(xb, ph, q);
    lemma_add_mod_noop(t + en, ph, q);
    lemma_sub_mod_noop(t + en + ph, t, q);
    assert(v % q == (t + en + ph - t) % q);
    assert(t + en + ph - t == pt[l] * h + (en + noise[l]));
    lemma_decode_noisy_bit(pt[l] as int, en + noise[l], q);
}

/// Decryption inverts encryption when the accumulated noise stays inside the
/// decoding margin: for a key pair made with noise `e`, a bit vector `pt`, a
/// binary mask `x`, payload noise `noise` and the ciphertext of `pt` made
/// with them, if every `e . x_l + noise[l]` has magnitude below `margin(q)`,
/// decryption returns `pt`.
pub proof fn lemma_round_trip(
    params: SecurityParameters,
    pk: PublicKey,
    sk: PrivateKey,
    e: Seq<i64>,
    pt: Seq<i64>,
    x: Seq<Vec<i64>>,
    noise: Seq<i64>,
    preamble: Seq<Vec<i64>>,
    scalars: Seq<i64>,
)
    requires
        params.valid(),
        pk.wf(params),
        sk.wf(params),
        e.len() == params.rank,
        key_relation(pk, sk, params.modulo as int, e),
        bits(pt),
        is_matrix(x, params.rank as int, pt.len() as int),
        noise.len() == pt.len(),
        ciphertext_relation(pk, params.modulo as int, pt, x, noise, preamble, scalars),
        forall|l: int|
            0 <= l < pt.len() ==> -margin(params.modulo as int) < #[trigger] dot(e, column(x, l))
                + noise[l] < margin(params.modulo as int),
    ensures
        forall|l: int|
            0 <= l < pt.len() ==> #[trigger] decrypt_bit(
                preamble,
                scalars,
                sk.secret_vector@,
                params.modulo as int,
                l,
            ) == pt[l],
{
    assert forall|l: int| 0 <= l < pt.len() implies #[trigger] decrypt_bit(
        preamble,
        scalars,
        sk.secret_vector@,
        params.modulo as int,
        l,
    ) == pt[l] by {
        assert(-margin(params.modulo as int) < dot(e, column(x, l)) + noise[l] < margin(
            params.modulo as int,
        ));
        lemma_round_trip_at(params, pk, sk, e, pt, x, noise, preamble, scalars, l);
    }
}

/// With this variant's noise (magnitude at most one) and `m + 1` below the
/// decoding margin, decryption always returns the encrypted bits.
pub proof fn lemma_round_trip_small_noise(
    params: SecurityParameters,
    pk: PublicKey,
    sk: PrivateKey,
    e: Seq<i64>,
    pt: Seq<i64>,
    x: Seq<Vec<i64>>,
    noise: Seq<i64>,
    preamble: Seq<Vec<i64>>,
    scalars: Seq<i64>,
)
    requires
        params.valid(),
        params.rank + 1 < margin(params.modulo as int),
        small(noise, 1),
        pk.wf(params),
        sk.wf(params),
        e.len() == params.rank,
        small(e, 1),
        key_relation(pk, sk, params.modulo as int, e),
        bits(pt),
        binary_matrix(x),
        is_matrix(x, params.rank as int, pt.len() as int),
        noise.len() == pt.len(),
        ciphertext_relation(pk, params.modulo as int, pt, x, noise, preamble, scalars),
    ensures
        forall|l: int|
            0 <= l < pt.len() ==> #[trigger] decrypt_bit(
                preamble,
                scalars,
                sk.secret_vector@,
                params.modulo as int,
                l,
            ) == pt[l],
{
    let m = params.rank as nat;
    assert forall|l: int| 0 <= l < pt.len() implies -margin(params.modulo as int)
        < #[trigger] dot(e, column(x, l)) + noise[l] < margin(params.modulo as int) by {
        let col = column(x, l);
        assert forall|j: int| 0 <= j < m implies -1 <= #[trigger] (e[j] as int * col[j] as int)
            <= 1 by {
            assert(bits(x[j]@));
            assert(col[j] == x[j]@[l]);
        }
        lemma_sum_bound(m, |j: int| e[j] as int * col[j] as int, 1);
    }
    lemma_round_trip(params, pk, sk, e, pt, x, noise, preamble, scalars);
}

} // verus!
