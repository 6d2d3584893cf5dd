//! Interactive multiparty key exchange over `Z_q[x] / (x^n + 1)`: messages
//! travel around a ring of participants, each hop multiplying by the next
//! participant's secret and adding even noise, and every participant
//! thresholds its final product into a shared bit vector.
use vstd::prelude::*;
use vstd::arithmetic::div_mod::*;
use crate::modular::{modq, reduce_mod, add_mod};
use crate::linalg::{DimensionMismatch, ENTRY_LIMIT, LENGTH_LIMIT, in_range, is_matrix, matrix_in_range, check_matrix, lemma_in_range_bounded};
use crate::poly::{nega, poly_mul};
use crate::noise::{CdfTable, sample_error, generate_secret, is_reduced_draw, is_draw};
use crate::encoding::bits;
use crate::ring_algebra::{ring_coeff, seq_fn, lemma_nega_ring_coeff, lemma_ring_rotate, lemma_ring_coeff_mod_left};

verus! {

/// The ring degree used by default.
pub const N: usize = 8;

/// The modulus used by default.
pub const Q: i64 = 97;

/// The outcome of one exchange: the reconciliation signal that participant 0
/// broadcasts, and the key bit vector that each participant derives.
pub struct KeyExchange {
    pub sigma: Vec<i64>,
    pub keys: Vec<Vec<i64>>,
}

/// Sizes that keep every intermediate value within `i64`.
pub open spec fn valid_ring(n: int, q: int) -> bool {
    1 <= n <= LENGTH_LIMIT && 2 <= q <= ENTRY_LIMIT
}

/// Coefficient `k` of one hop: `p s + 2 e (mod q)`.
pub open spec fn hop(p: Seq<i64>, s: Seq<i64>, e: Seq<i64>, n: int, q: int, k: int) -> int {
    modq(nega(p, s, n, k) + 2 * e[k], q)
}

/// One relay hop: the message `p` multiplied by the secret `s` in the ring,
/// plus twice the noise `e`, reduced modulo `q`.
pub fn relay(p: &Vec<i64>, s: &Vec<i64>, e: &Vec<i64>, n: usize, q: i64) -> (r: Vec<i64>)
    requires
        valid_ring(n as int, q as int),
        p.len() == n,
        s.len() == n,
        e.len() == n,
        in_range(p@, q as int),
        in_range(s@, q as int),
        in_range(e@, q as int),
    ensures
        r@.len() == n,
        in_range(r@, q as int),
        forall|k: int| 0 <= k < n ==> #[trigger] r@[k] == hop(p@, s@, e@, n as int, q as int, k),
{
    proof {
        lemma_in_range_bounded(p@, q as int);
        lemma_in_range_bounded(s@, q as int);
    }
    let prod = poly_mul(p, s, n, q);
    let mut out: Vec<i64> = Vec::with_capacity(n);
    let mut k: usize = 0;
    while k < n
        invariant
            k <= n,
            prod@.len() == n,
            e.len() == n,
            in_range(prod@, q as int),
            in_range(e@, q as int),
            2 <= q <= ENTRY_LIMIT,
            forall|k2: int| 0 <= k2 < n ==> #[trigger] prod@[k2] == modq(nega(p@, s@, n as int, k2), q as int),
            out@.len() == k,
            in_range(out@, q as int),
            forall|k2: int| 0 <= k2 < k ==> #[trigger] out@[k2] == hop(p@, s@, e@, n as int, q as int, k2),
        decreases n - k,
    {
        let twice = reduce_mod(2 * e[k], q);
        proof {
            let x = nega(p@, s@, n as int, k as int);
            lemma_add_mod_noop(x, 2 * e@[k as int], q as int);
            lemma_mod_twice(x, q as int);
        }
        out.push(add_mod(prod[k], twice, q));
        k = k + 1;
    }
    out
}

/// The bit vector of a polynomial: one where a coefficient exceeds `q / 2`.
pub fn extract_shared_key(poly: &Vec<i64>, q: i64) -> (r: Vec<i64>)
    requires
        q > 0,
    ensures
        r@.len() == poly.len(),
        bits(r@),
        forall|i: int| 0 <= i < poly.len() ==> (#[trigger] r@[i] == 1) == (poly@[i] > q / 2),
{
    let threshold = q / 2;
    let mut out: Vec<i64> = Vec::with_capacity(poly.len());
    let mut i: usize = 0;
    while i < poly.len()
        invariant
            i <= poly.len(),
            threshold == q / 2,
            out@.len() == i,
            bits(out@),
            forall|i2: int| 0 <= i2 < i ==> (#[trigger] out@[i2] == 1) == (poly@[i2] > q / 2),
        decreases poly.len() - i,
    {
        if poly[i] > threshold {
            out.push(1);
        } else {
            out.push(0);
        }
        i = i + 1;
    }
    out
}

/// The noise distribution of the exchange: values in `{-1, 0, 1}`, rarely nonzero.
pub fn noise_table() -> (r: CdfTable)
    ensures
        r.wf(),
        r.bound() == 1,
{
    CdfTable::rare_unit()
}

/// All of `v`'s entries are ring elements of `n` residues modulo `q`.
pub open spec fn all_ring_elements(v: Seq<Vec<i64>>, n: int, q: int) -> bool {
    forall|i: int| 0 <= i < v.len() ==> (#[trigger] v[i])@.len() == n && in_range(v[i]@, q)
}

/// The contents of a vector of vectors.
pub open spec fn vecs_view(v: Seq<Vec<i64>>) -> Seq<Seq<i64>> {
    v.map_values(|x: Vec<i64>| x@)
}

/// Indices as integers.
pub open spec fn order_view(o: Seq<usize>) -> Seq<int> {
    o.map_values(|x: usize| x as int)
}

/// Every coefficient is the residue of `-1`, `0` or `1`.
pub open spec fn unit_noise(v: Seq<i64>, q: int) -> bool {
    forall|j: int| 0 <= j < v.len() ==> (#[trigger] v[j] == 0 || v[j] == 1 || v[j] == q - 1)
}

/// One hop with noise: `p s + 2 e (mod q)`.
pub open spec fn hop_seq(p: Seq<i64>, s: Seq<i64>, e: Seq<i64>, n: int, q: int) -> Seq<i64> {
    Seq::new(n as nat, |k: int| hop(p, s, e, n, q, k) as i64)
}

/// `p` multiplied by the secrets that `order` names, in turn, with the noise
/// `noise[h]` added at hop `h`.
pub open spec fn noisy_chain(
    p: Seq<i64>,
    secrets: Seq<Seq<i64>>,
    order: Seq<int>,
    noise: Seq<Seq<i64>>,
    n: int,
    q: int,
) -> Seq<i64>
    decreases order.len(),
{
    if order.len() == 0 {
        p
    } else {
        hop_seq(
            noisy_chain(p, secrets, order.drop_last(), noise, n, q),
            secrets[order.last()],
            noise[order.len() - 1],
            n,
            q,
        )
    }
}

/// Participant `t`'s key polynomial: the public element `m` carried through
/// the other participants with the noise `relay_noise`, then multiplied by
/// `t`'s own secret with the noise `e`.
pub open spec fn final_poly(
    m: Seq<i64>,
    secrets: Seq<Seq<i64>>,
    t: int,
    k: int,
    relay_noise: Seq<Seq<i64>>,
    e: Seq<i64>,
    n: int,
    q: int,
) -> Seq<i64> {
    hop_seq(noisy_chain(m, secrets, key_order(t, k).drop_last(), relay_noise, n, q), secrets[t], e, n, q)
}

/// The key bits of a polynomial: one where a coefficient exceeds `q / 2`.
pub open spec fn key_bits(poly: Seq<i64>, q: int) -> Seq<i64> {
    poly.map_values(|x: i64| if x > q / 2 {
        1i64
    } else {
        0i64
    })
}

/// The first `k - 1` entries of participant `t`'s order: `t + 1, ..., t + k - 1`, modulo `k`.
fn relay_order(t: usize, k: usize) -> (r: Vec<usize>)
    requires
        t < k,
    ensures
        r@.len() == k - 1,
        order_view(r@) == key_order(t as int, k as int).drop_last(),
        forall|j: int| 0 <= j < r@.len() ==> #[trigger] r@[j] < k,
{
    let mut out: Vec<usize> = Vec::with_capacity(k - 1);
    let mut j: usize = 0;
    while j + 1 < k
        invariant
            t < k,
            j < k,
            out@.len() == j,
            forall|j2: int| 0 <= j2 < j ==> #[trigger] out@[j2] as int == (t + 1 + j2) % (k as int),
            forall|j2: int| 0 <= j2 < j ==> #[trigger] out@[j2] < k,
        decreases k - j,
    {
        let idx = if j < k - (t + 1) {
            proof {
                lemma_small_mod((t + 1 + j) as nat, k as nat);
            }
            t + 1 + j
        } else {
            proof {
                lemma_fundamental_div_mod_converse(t + 1 + j, k as int, 1, j - (k - (t + 1)));
            }
            j - (k - (t + 1))
        };
        out.push(idx);
        j = j + 1;
    }
    assert(order_view(out@) =~= key_order(t as int, k as int).drop_last());
    out
}

/// `count` noise vectors of `n` residues of `-1`, `0` or `1`.
fn sample_unit_noise(rng: &mut rand::rngs::StdRng, count: usize, n: usize, q: i64) -> (r: Vec<Vec<i64>>)
    requires
        valid_ring(n as int, q as int),
    ensures
        r@.len() == count,
        all_ring_elements(r@, n as int, q as int),
        forall|h: int| 0 <= h < count ==> unit_noise((#[trigger] r@[h])@, q as int),
{
    let table = noise_table();
    let mut out: Vec<Vec<i64>> = Vec::with_capacity(count);
    let mut h: usize = 0;
    while h < count
        invariant
            h <= count,
            valid_ring(n as int, q as int),
            table.wf(),
            table.bound() == 1,
            out@.len() == h,
            all_ring_elements(out@, n as int, q as int),
            forall|h2: int| 0 <= h2 < h ==> unit_noise((#[trigger] out@[h2])@, q as int),
        decreases count - h,
    {
        let e = sample_error(rng, &table, n, q);
        assert(unit_noise(e@, q as int)) by {
            assert forall|j: int| 0 <= j < e@.len() implies (#[trigger] e@[j] == 0 || e@[j] == 1 || e@[j]
                == q - 1) by {
                assert(is_reduced_draw(table.cumulative@, q as int, e@[j] as int));
                let x = choose|x: int|
                    is_draw(table.cumulative@, x) && -(table.cumulative@.len() - 1) <= x
                        <= table.cumulative@.len() - 1 && e@[j] as int == #[trigger] modq(x, q as int);
                if x == -1 {
                    lemma_fundamental_div_mod_converse(-1, q as int, -1, q - 1);
                } else {
                    lemma_small_mod(x as nat, q as nat);
                }
            }
        }
        out.push(e);
        h = h + 1;
    }
    out
}

/// Carries `p` through the secrets that `order` names, adding `noise[h]` at hop `h`.
fn run_chain(
    p: &Vec<i64>,
    secrets: &Vec<Vec<i64>>,
    order: &Vec<usize>,
    noise: &Vec<Vec<i64>>,
    n: usize,
    q: i64,
) -> (r: Vec<i64>)
    requires
        valid_ring(n as int, q as int),
        p.len() == n,
        in_range(p@, q as int),
        all_ring_elements(secrets@, n as int, q as int),
        forall|j: int| 0 <= j < order@.len() ==> #[trigger] order@[j] < secrets.len(),
        noise@.len() == order@.len(),
        all_ring_elements(noise@, n as int, q as int),
    ensures
        r@ == noisy_chain(p@, vecs_view(secrets@), order_view(order@), vecs_view(noise@), n as int, q as int),
        r@.len() == n,
        in_range(r@, q as int),
{
    let ghost sv = vecs_view(secrets@);
    let ghost nv = vecs_view(noise@);
    let ghost ov = order_view(order@);
    let mut cur = p.clone();
    let mut h: usize = 0;
    assert(ov.take(0) =~= Seq::<int>::empty());
    while h < order.len()
        invariant
            h <= order.len(),
            valid_ring(n as int, q as int),
            all_ring_elements(secrets@, n as int, q as int),
            forall|j: int| 0 <= j < order@.len() ==> #[trigger] order@[j] < secrets.len(),
            noise@.len() == order@.len(),
            all_ring_elements(noise@, n as int, q as int),
            sv == vecs_view(secrets@),
            nv == vecs_view(noise@),
            ov == order_view(order@),
            cur@.len() == n,
            in_range(cur@, q as int),
            cur@ == noisy_chain(p@, sv, ov.take(h as int), nv, n as int, q as int),
        decreases order.len() - h,
    {
        let idx = order[h];
        let next = relay(&cur, &secrets[idx], &noise[h], n, q);
        proof {
            let o2 = ov.take(h + 1);
            assert(o2.drop_last() =~= ov.take(h as int));
            assert(o2.last() == idx as int);
            assert(next@ =~= hop_seq(cur@, sv[idx as int], nv[h as int], n as int, q as int));
        }
        cur = next;
        h = h + 1;
    }
    assert(ov.take(order.len() as int) =~= ov);
    cur
}

/// The shapes that the exchange among `k` participants over `n`
/// coefficients needs: `m` and `sigma_noise` of `n` entries, `k` secrets and
/// `k` final noise vectors of `n` entries, and for each participant `k - 1`
/// relay noise vectors of `n` entries.
pub open spec fn exchange_shapes(
    k: int,
    n: int,
    m: Seq<i64>,
    secrets: Seq<Vec<i64>>,
    relay_noise: Seq<Vec<Vec<i64>>>,
    final_noise: Seq<Vec<i64>>,
    sigma_noise: Seq<i64>,
) -> bool {
    &&& m.len() == n
    &&& is_matrix(secrets, k, n)
    &&& relay_noise.len() == k
    &&& forall|t: int| 0 <= t < k ==> is_matrix((#[trigger] relay_noise[t])@, k - 1, n)
    &&& is_matrix(final_noise, k, n)
    &&& sigma_noise.len() == n
}

/// The exchange for the drawn values: the public element `m`, the secrets,
/// the relay noise `relay_noise[t]` (one vector per hop) and final noise
/// `final_noise[t]` of each participant `t`, and the noise `sigma_noise` of
/// participant 0's signal. Participant `t`'s key is the key bits of
/// `final_poly` for its values; the signal is participant 0's with
/// `sigma_noise`. Fails when a shape differs from `k` and `n`.
pub fn key_exchange_with(
    k: usize,
    n: usize,
    q: i64,
    m: &Vec<i64>,
    secrets: &Vec<Vec<i64>>,
    relay_noise: &Vec<Vec<Vec<i64>>>,
    final_noise: &Vec<Vec<i64>>,
    sigma_noise: &Vec<i64>,
) -> (r: Result<KeyExchange, DimensionMismatch>)
    requires
        k >= 1,
        valid_ring(n as int, q as int),
        in_range(m@, q as int),
        matrix_in_range(secrets@, q as int),
        forall|t: int| 0 <= t < relay_noise@.len() ==> matrix_in_range((#[trigger] relay_noise@[t])@, q as int),
        matrix_in_range(final_noise@, q as int),
        in_range(sigma_noise@, q as int),
    ensures
        r is Ok <==> exchange_shapes(k as int, n as int, m@, secrets@, relay_noise@, final_noise@, sigma_noise@),
        r matches Err(d) ==> d.expected != d.found,
        r matches Ok(x) ==> {
            &&& x.keys@.len() == k
            &&& forall|t: int|
                0 <= t < k ==> #[trigger] x.keys@[t]@ == key_bits(
                    final_poly(
                        m@,
                        vecs_view(secrets@),
                        t,
                        k as int,
                        vecs_view(relay_noise@[t]@),
                        final_noise@[t]@,
                        n as int,
                        q as int,
                    ),
                    q as int,
                )
            &&& x.sigma@ == key_bits(
                final_poly(
                    m@,
                    vecs_view(secrets@),
                    0,
                    k as int,
                    vecs_view(relay_noise@[0]@),
                    sigma_noise@,
                    n as int,
                    q as int,
                ),
                q as int,
            )
        },
{
    if m.len() != n {
        return Err(DimensionMismatch { expected: n, found: m.len() });
    }
    check_matrix(secrets, k, n)?;
    if relay_noise.len() != k {
        return Err(DimensionMismatch { expected: k, found: relay_noise.len() });
    }
    let mut c: usize = 0;
    while c < k
        invariant
            c <= k,
            relay_noise@.len() == k,
            forall|t: int| 0 <= t < c ==> is_matrix((#[trigger] relay_noise@[t])@, k - 1, n as int),
        decreases k - c,
    {
        check_matrix(&relay_noise[c], k - 1, n)?;
        c = c + 1;
    }
    check_matrix(final_noise, k, n)?;
    if sigma_noise.len() != n {
        return Err(DimensionMismatch { expected: n, found: sigma_noise.len() });
    }
    let ghost sv = vecs_view(secrets@);
    let mut sigma: Vec<i64> = Vec::new();
    let mut keys: Vec<Vec<i64>> = Vec::with_capacity(k);
    let mut t: usize = 0;
    while t < k
        invariant
            t <= k,
            k >= 1,
            valid_ring(n as int, q as int),
            m@.len() == n,
            in_range(m@, q as int),
            is_matrix(secrets@, k as int, n as int),
            matrix_in_range(secrets@, q as int),
            relay_noise@.len() == k,
            forall|t2: int| 0 <= t2 < k ==> is_matrix((#[trigger] relay_noise@[t2])@, k - 1, n as int),
            forall|t2: int| 0 <= t2 < relay_noise@.len() ==> matrix_in_range((#[trigger] relay_noise@[t2])@, q as int),
            is_matrix(final_noise@, k as int, n as int),
            matrix_in_range(final_noise@, q as int),
            sigma_noise@.len() == n,
            in_range(sigma_noise@, q as int),
            sv == vecs_view(secrets@),
            keys@.len() == t,
            forall|t2: int|
                0 <= t2 < t ==> #[trigger] keys@[t2]@ == key_bits(
                    final_poly(m@, sv, t2, k as int, vecs_view(relay_noise@[t2]@), final_noise@[t2]@, n as int, q as int),
                    q as int,
                ),
            t > 0 ==> sigma@ == key_bits(
                final_poly(m@, sv, 0, k as int, vecs_view(relay_noise@[0]@), sigma_noise@, n as int, q as int),
                q as int,
            ),
        decreases k - t,
    {
        let order = relay_order(t, k);
        proof {
            assert(matrix_in_range(relay_noise@[t as int]@, q as int));
            assert(is_matrix(relay_noise@[t as int]@, k - 1, n as int));
        }
        let inter = run_chain(m, secrets, &order, &relay_noise[t], n, q);
        assert(in_range(final_noise@[t as int]@, q as int));
        let own = relay(&inter, &secrets[t], &final_noise[t], n, q);
        let key = extract_shared_key(&own, q);
        proof {
            assert(own@ =~= hop_seq(inter@, sv[t as int], final_noise@[t as int]@, n as int, q as int));
            assert(key@ =~= key_bits(own@, q as int));
        }
        if t == 0 {
            let own0 = relay(&inter, &secrets[0], sigma_noise, n, q);
            sigma = extract_shared_key(&own0, q);
            proof {
                assert(own0@ =~= hop_seq(inter@, sv[0], sigma_noise@, n as int, q as int));
                assert(sigma@ =~= key_bits(own0@, q as int));
            }
        }
        keys.push(key);
        t = t + 1;
    }
    Ok(KeyExchange { sigma, keys })
}

/// Runs the exchange among `k` participants over `Z_q[x] / (x^n + 1)` with
/// fresh randomness: a public element `m` and secrets with coefficients in
/// `[1, q)`, and unit noise at every hop (see `key_exchange_with`).
pub fn multiparty_key_exchange(k: usize, n: usize, q: i64, rng: &mut rand::rngs::StdRng) -> (r:
    KeyExchange)
    requires
        k >= 1,
        valid_ring(n as int, q as int),
    ensures
        r.sigma@.len() == n,
        bits(r.sigma@),
        r.keys@.len() == k,
        forall|i: int| 0 <= i < k ==> (#[trigger] r.keys@[i])@.len() == n && bits(r.keys@[i]@),
        exists|
            m: Seq<i64>,
            secrets: Seq<Seq<i64>>,
            relay_noise: Seq<Seq<Seq<i64>>>,
            final_noise: Seq<Seq<i64>>,
            sigma_noise: Seq<i64>,
        |
            #[trigger] exchange_relation(
                r,
                m,
                secrets,
                relay_noise,
                final_noise,
                sigma_noise,
                k as int,
                n as int,
                q as int,
            ),
{
    let m = generate_secret(rng, n, q);
    let mut secrets: Vec<Vec<i64>> = Vec::with_capacity(k);
    let mut relay_noise: Vec<Vec<Vec<i64>>> = Vec::with_capacity(k);
    let mut i: usize = 0;
    while i < k
        invariant
            i <= k,
            valid_ring(n as int, q as int),
            secrets@.len() == i,
            forall|j: int| 0 <= j < i ==> (#[trigger] secrets@[j])@.len() == n && nonzero_residues(secrets@[j]@, q as int),
            relay_noise@.len() == i,
            forall|j: int| 0 <= j < i ==> (#[trigger] relay_noise@[j])@.len() == k - 1 && all_ring_elements(relay_noise@[j]@, n as int, q as int)
                && forall|h: int| 0 <= h < k - 1 ==> unit_noise((#[trigger] relay_noise@[j]@[h])@, q as int),
        decreases k - i,
    {
        secrets.push(generate_secret(rng, n, q));
        relay_noise.push(sample_unit_noise(rng, k - 1, n, q));
        i = i + 1;
    }
    let final_noise = sample_unit_noise(rng, k, n, q);
    let extra = sample_unit_noise(rng, 1, n, q);
    let sigma_noise = extra[0].clone();
    proof {
        assert(sigma_noise@ == extra@[0]@);
        assert forall|t: int| 0 <= t < relay_noise@.len() implies matrix_in_range((#[trigger] relay_noise@[t])@, q as int) by {
            assert(all_ring_elements(relay_noise@[t]@, n as int, q as int));
        }
        assert(matrix_in_range(secrets@, q as int)) by {
            assert forall|j: int| 0 <= j < secrets@.len() implies in_range((#[trigger] secrets@[j])@, q as int) by {
                assert(nonzero_residues(secrets@[j]@, q as int));
            }
        }
        assert(matrix_in_range(final_noise@, q as int));
    }
    match key_exchange_with(k, n, q, &m, &secrets, &relay_noise, &final_noise, &sigma_noise) {
        Ok(r) => {
            proof {
                let sv = vecs_view(secrets@);
                let rv = Seq::new(k as nat, |t: int| vecs_view(relay_noise@[t]@));
                let fv = vecs_view(final_noise@);
                assert forall|t: int| 0 <= t < k implies (#[trigger] rv[t]).len() == k - 1 && noise_wf(rv[t], n as int, q as int) by {
                    assert(relay_noise@[t]@.len() == k - 1);
                    assert forall|h: int| 0 <= h < rv[t].len() implies (#[trigger] rv[t][h]).len() == n && unit_noise(rv[t][h], q as int) by {
                        assert(unit_noise(relay_noise@[t]@[h]@, q as int));
                        assert(all_ring_elements(relay_noise@[t]@, n as int, q as int));
                    }
                }
                assert forall|t: int| 0 <= t < k implies (#[trigger] r.keys@[t])@.len() == n && bits(r.keys@[t]@) by {
                    assert(r.keys@[t]@ == key_bits(final_poly(m@, sv, t, k as int, rv[t], fv[t], n as int, q as int), q as int));
                    lemma_key_bits(final_poly(m@, sv, t, k as int, rv[t], fv[t], n as int, q as int), q as int);
                }
                lemma_key_bits(final_poly(m@, sv, 0, k as int, rv[0], sigma_noise@, n as int, q as int), q as int);
                assert(exchange_relation(r, m@, sv, rv, fv, sigma_noise@, k as int, n as int, q as int));
            }
            r
        },
        Err(_) => {
            proof {
                assert(false);
            }
            KeyExchange { sigma: Vec::new(), keys: Vec::new() }
        },
    }
}

/// Every entry lies in `[1, q)`.
pub open spec fn nonzero_residues(v: Seq<i64>, q: int) -> bool {
    forall|i: int| 0 <= i < v.len() ==> 1 <= #[trigger] v[i] < q
}

proof fn lemma_key_bits(poly: Seq<i64>, q: int)
    ensures
        key_bits(poly, q).len() == poly.len(),
        bits(key_bits(poly, q)),
{
}

/// Every noise vector has `n` unit residues.
pub open spec fn noise_wf(noise: Seq<Seq<i64>>, n: int, q: int) -> bool {
    forall|h: int| 0 <= h < noise.len() ==> (#[trigger] noise[h]).len() == n && unit_noise(noise[h], q)
}

/// `r` is the outcome of the exchange for the public element `m`, the
/// secrets, and the noise vectors: participant `t`'s key is the key bits of
/// its polynomial with relay noise `relay_noise[t]` and final noise
/// `final_noise[t]`; the signal is participant 0's with final noise
/// `sigma_noise`. All noise is unit noise.
pub open spec fn exchange_relation(
    r: KeyExchange,
    m: Seq<i64>,
    secrets: Seq<Seq<i64>>,
    relay_noise: Seq<Seq<Seq<i64>>>,
    final_noise: Seq<Seq<i64>>,
    sigma_noise: Seq<i64>,
    k: int,
    n: int,
    q: int,
) -> bool {
    &&& m.len() == n
    &&& nonzero_residues(m, q)
    &&& secrets.len() == k
    &&& forall|i: int| 0 <= i < k ==> (#[trigger] secrets[i]).len() == n && nonzero_residues(secrets[i], q)
    &&& relay_noise.len() == k
    &&& final_noise.len() == k
    &&& forall|t: int| 0 <= t < k ==> (#[trigger] relay_noise[t]).len() == k - 1 && noise_wf(relay_noise[t], n, q)
    &&& forall|t: int| 0 <= t < k ==> (#[trigger] final_noise[t]).len() == n && unit_noise(final_noise[t], q)
    &&& sigma_noise.len() == n
    &&& unit_noise(sigma_noise, q)
    &&& forall|t: int|
        0 <= t < k ==> #[trigger] r.keys@[t]@ == key_bits(
            final_poly(m, secrets, t, k, relay_noise[t], final_noise[t], n, q),
            q,
        )
    &&& r.sigma@ == key_bits(final_poly(m, secrets, 0, k, relay_noise[0], sigma_noise, n, q), q)
}

/// The noise-free product `p s` in `Z_q[x] / (x^n + 1)`, reduced into `[0, q)`.
pub open spec fn rmul(p: Seq<i64>, s: Seq<i64>, n: int, q: int) -> Seq<i64> {
    Seq::new(n as nat, |k: int| modq(nega(p, s, n, k), q) as i64)
}

/// `p` multiplied, noise-free, by the secrets that `order` names, in turn.
pub open spec fn chain(p: Seq<i64>, secrets: Seq<Seq<i64>>, order: Seq<int>, n: int, q: int) -> Seq<i64>
    decreases order.len(),
{
    if order.len() == 0 {
        p
    } else {
        rmul(chain(p, secrets, order.drop_last(), n, q), secrets[order.last()], n, q)
    }
}

/// The order in which participant `t`'s key polynomial meets the secrets:
/// those of participants `t + 1, ..., t + k - 1` (modulo `k`), then its own.
pub open spec fn key_order(t: int, k: int) -> Seq<int> {
    Seq::new(k as nat, |j: int| (t + 1 + j) % k)
}

/// All secrets have `n` coefficients.
pub open spec fn secrets_wf(secrets: Seq<Seq<i64>>, n: int) -> bool {
    forall|i: int| 0 <= i < secrets.len() ==> (#[trigger] secrets[i]).len() == n
}

proof fn lemma_rmul_commute(p: Seq<i64>, x: Seq<i64>, y: Seq<i64>, n: int, q: int)
    requires
        valid_ring(n, q),
        p.len() == n,
        x.len() == n,
        y.len() == n,
    ensures
        rmul(rmul(p, x, n, q), y, n, q) == rmul(rmul(p, y, n, q), x, n, q),
{
    let px = rmul(p, x, n, q);
    let py = rmul(p, y, n, q);
    let pf = seq_fn(p);
    let xf = seq_fn(x);
    let yf = seq_fn(y);
    assert forall|k: int| 0 <= k < n implies #[trigger] rmul(px, y, n, q)[k] == rmul(py, x, n, q)[k] by {
        assert forall|j: int| 0 <= j < n implies #[trigger] seq_fn(px)(j) % q == (|j2: int| ring_coeff(pf, xf, n, j2))(j) % q by {
            lemma_nega_ring_coeff(p, x, n, j);
            lemma_mod_twice(ring_coeff(pf, xf, n, j), q);
        }
        assert forall|j: int| 0 <= j < n implies #[trigger] seq_fn(py)(j) % q == (|j2: int| ring_coeff(pf, yf, n, j2))(j) % q by {
            lemma_nega_ring_coeff(p, y, n, j);
            lemma_mod_twice(ring_coeff(pf, yf, n, j), q);
        }
        lemma_ring_coeff_mod_left(seq_fn(px), |j2: int| ring_coeff(pf, xf, n, j2), yf, n, k, q);
        lemma_ring_coeff_mod_left(seq_fn(py), |j2: int| ring_coeff(pf, yf, n, j2), xf, n, k, q);
        lemma_ring_rotate(pf, xf, yf, n, k);
        lemma_nega_ring_coeff(px, y, n, k);
        lemma_nega_ring_coeff(py, x, n, k);
    }
    assert(rmul(px, y, n, q) =~= rmul(py, x, n, q));
}

proof fn lemma_chain_len(p: Seq<i64>, secrets: Seq<Seq<i64>>, order: Seq<int>, n: int, q: int)
    requires
        n >= 0,
        p.len() == n,
    ensures
        chain(p, secrets, order, n, q).len() == n,
    decreases order.len(),
{
    if order.len() > 0 {
        lemma_chain_len(p, secrets, order.drop_last(), n, q);
    }
}

/// Multiplying first by the secret `x` commutes with the rest of the chain.
proof fn lemma_chain_front(p: Seq<i64>, secrets: Seq<Seq<i64>>, x: int, order: Seq<int>, n: int, q: int)
    requires
        valid_ring(n, q),
        p.len() == n,
        secrets_wf(secrets, n),
        0 <= x < secrets.len(),
        forall|j: int| 0 <= j < order.len() ==> 0 <= #[trigger] order[j] < secrets.len(),
    ensures
        chain(p, secrets, seq![x] + order, n, q) == rmul(chain(p, secrets, order, n, q), secrets[x], n, q),
    decreases order.len(),
{
    let full = seq![x] + order;
    if order.len() == 0 {
        assert(full.drop_last() =~= Seq::<int>::empty());
        assert(full.last() == x);
        assert(chain(p, secrets, full.drop_last(), n, q) == p);
        assert(chain(p, secrets, order, n, q) == p);
    } else {
        let rest = order.drop_last();
        let y = order.last();
        assert(full.drop_last() =~= seq![x] + rest);
        assert(full.last() == y);
        assert(0 <= y < secrets.len()) by {
            assert(order[order.len() - 1] == y);
        }
        assert forall|j: int| 0 <= j < rest.len() implies 0 <= #[trigger] rest[j] < secrets.len() by {
            assert(rest[j] == order[j]);
        }
        lemma_chain_front(p, secrets, x, rest, n, q);
        lemma_chain_len(p, secrets, rest, n, q);
        assert(secrets[x].len() == n);
        assert(secrets[y].len() == n);
        lemma_rmul_commute(chain(p, secrets, rest, n, q), secrets[x], secrets[y], n, q);
        assert(chain(p, secrets, full, n, q) == rmul(chain(p, secrets, seq![x] + rest, n, q), secrets[y], n, q));
        assert(chain(p, secrets, order, n, q) == rmul(chain(p, secrets, rest, n, q), secrets[y], n, q));
    }
}

/// Without noise, every participant's key polynomial is the same: for all
/// `k >= 1` participants, all `n`, `q` and all secrets, participant `t`'s
/// product equals participant 0's.
pub proof fn lemma_noise_free_agreement(m: Seq<i64>, secrets: Seq<Seq<i64>>, k: int, n: int, q: int, t: int)
    requires
        valid_ring(n, q),
        k >= 1,
        m.len() == n,
        secrets.len() == k,
        secrets_wf(secrets, n),
        0 <= t < k,
    ensures
        chain(m, secrets, key_order(t, k), n, q) == chain(m, secrets, key_order(0, k), n, q),
    decreases t,
{
    if t > 0 {
        lemma_noise_free_agreement(m, secrets, k, n, q, t - 1);
        let prev = key_order(t - 1, k);
        let x = prev[0];
        let rest = prev.drop_first();
        assert(prev =~= seq![x] + rest);
        assert(key_order(t, k) =~= rest.push(x)) by {
            assert forall|j: int| 0 <= j < k implies #[trigger] key_order(t, k)[j] == rest.push(x)[j] by {
                if j == k - 1 {
                    lemma_fundamental_div_mod_converse(t + 1 + j, k, 1, t);
                    lemma_fundamental_div_mod_converse(t - 1 + 1 + 0, k, 0, t);
                } else {
                    assert(rest[j] == prev[j + 1]);
                    assert(t - 1 + 1 + (j + 1) == t + 1 + j);
                }
            }
        }
        assert forall|j: int| 0 <= j < rest.len() implies 0 <= #[trigger] rest[j] < secrets.len() by {
            assert(rest[j] == prev[j + 1]);
        }
        lemma_chain_front(m, secrets, x, rest, n, q);
        assert(rest.push(x).drop_last() =~= rest);
    }
}

/// Every coefficient is zero.
pub open spec fn zero_noise(v: Seq<i64>) -> bool {
    forall|j: int| 0 <= j < v.len() ==> #[trigger] v[j] == 0
}

proof fn lemma_noisy_chain_zero(
    p: Seq<i64>,
    secrets: Seq<Seq<i64>>,
    order: Seq<int>,
    noise: Seq<Seq<i64>>,
    n: int,
    q: int,
)
    requires
        n >= 0,
        p.len() == n,
        noise.len() >= order.len(),
        forall|h: int| 0 <= h < order.len() ==> (#[trigger] noise[h]).len() == n && zero_noise(noise[h]),
    ensures
        noisy_chain(p, secrets, order, noise, n, q) == chain(p, secrets, order, n, q),
    decreases order.len(),
{
    if order.len() > 0 {
        let rest = order.drop_last();
        lemma_noisy_chain_zero(p, secrets, rest, noise, n, q);
        let x = chain(p, secrets, rest, n, q);
        let e = noise[order.len() - 1];
        assert(zero_noise(e));
        assert(hop_seq(x, secrets[order.last()], e, n, q) =~= rmul(x, secrets[order.last()], n, q));
    }
}

proof fn lemma_final_poly_zero(
    m: Seq<i64>,
    secrets: Seq<Seq<i64>>,
    t: int,
    k: int,
    relay_noise: Seq<Seq<i64>>,
    e: Seq<i64>,
    n: int,
    q: int,
)
    requires
        valid_ring(n, q),
        k >= 1,
        0 <= t < k,
        m.len() == n,
        e.len() == n,
        zero_noise(e),
        relay_noise.len() == k - 1,
        forall|h: int| 0 <= h < k - 1 ==> (#[trigger] relay_noise[h]).len() == n && zero_noise(relay_noise[h]),
    ensures
        final_poly(m, secrets, t, k, relay_noise, e, n, q) == chain(m, secrets, key_order(t, k), n, q),
{
    let order = key_order(t, k);
    lemma_noisy_chain_zero(m, secrets, order.drop_last(), relay_noise, n, q);
    let x = chain(m, secrets, order.drop_last(), n, q);
    lemma_fundamental_div_mod_converse(t + 1 + (k - 1), k, 1, t);
    assert(order.last() == t);
    assert(hop_seq(x, secrets[t], e, n, q) =~= rmul(x, secrets[t], n, q));
}

/// Without noise the participants agree: for every outcome of the exchange
/// among `k >= 1` participants whose noise vectors are all zero, every
/// participant's key and the signal equal participant 0's key.
pub proof fn lemma_keys_agree_without_noise(
    r: KeyExchange,
    m: Seq<i64>,
    secrets: Seq<Seq<i64>>,
    relay_noise: Seq<Seq<Seq<i64>>>,
    final_noise: Seq<Seq<i64>>,
    sigma_noise: Seq<i64>,
    k: int,
    n: int,
    q: int,
)
    requires
        valid_ring(n, q),
        k >= 1,
        exchange_relation(r, m, secrets, relay_noise, final_noise, sigma_noise, k, n, q),
        forall|t: int, h: int|
            0 <= t < k && 0 <= h < relay_noise[t].len() ==> zero_noise(#[trigger] relay_noise[t][h]),
        forall|t: int| 0 <= t < k ==> zero_noise(#[trigger] final_noise[t]),
        zero_noise(sigma_noise),
    ensures
        forall|t: int| 0 <= t < k ==> #[trigger] r.keys@[t]@ == r.keys@[0]@,
        r.sigma@ == r.keys@[0]@,
{
    assert(secrets_wf(secrets, n));
    assert forall|t: int| 0 <= t < k implies final_poly(
        m,
        secrets,
        t,
        k,
        relay_noise[t],
        final_noise[t],
        n,
        q,
    ) == #[trigger] chain(m, secrets, key_order(t, k), n, q) by {
        assert(noise_wf(relay_noise[t], n, q));
        lemma_final_poly_zero(m, secrets, t, k, relay_noise[t], final_noise[t], n, q);
    }
    assert(noise_wf(relay_noise[0], n, q));
    lemma_final_poly_zero(m, secrets, 0, k, relay_noise[0], sigma_noise, n, q);
    assert forall|t: int| 0 <= t < k implies #[trigger] r.keys@[t]@ == r.keys@[0]@ by {
        lemma_noise_free_agreement(m, secrets, k, n, q, t);
        assert(chain(m, secrets, key_order(t, k), n, q) == chain(m, secrets, key_order(0, k), n, q));
    }
}

} // verus!
