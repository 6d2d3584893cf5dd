//! Randomness and noise sampling. All draws come from a caller-owned
//! `rand::rngs::StdRng`, so a seeded generator reproduces every result.
use vstd::prelude::*;
use rand::Rng;
use crate::linalg::{in_range, is_matrix, matrix_in_range};
use crate::modular::{modq, reduce_mod};

verus! {

#[verifier::external_type_specification]
#[verifier::external_body]
pub struct ExStdRng(rand::rngs::StdRng);

/// Relies on `rand::Rng::gen_range` (rand 0.8): a value drawn from the
/// half-open range `lo..hi`, which must not be empty (it panics otherwise).
#[verifier::external_body]
fn draw_range(rng: &mut rand::rngs::StdRng, lo: i64, hi: i64) -> (r: i64)
    requires
        lo < hi,
    ensures
        lo <= r < hi,
{
    rng.gen_range(lo..hi)
}

/// A vector of `size` values drawn uniformly from `[0, modulo)`.
pub fn sample_uniform_vector(rng: &mut rand::rngs::StdRng, size: usize, modulo: i64) -> (r: Vec<
    i64,
>)
    requires
        modulo > 0,
    ensures
        r@.len() == size,
        in_range(r@, modulo as int),
{
    let mut out: Vec<i64> = Vec::with_capacity(size);
    let mut i: usize = 0;
    while i < size
        invariant
            i <= size,
            modulo > 0,
            out@.len() == i,
            in_range(out@, modulo as int),
        decreases size - i,
    {
        out.push(draw_range(rng, 0, modulo));
        i = i + 1;
    }
    out
}

/// A `rows` by `cols` matrix of values drawn uniformly from `[0, modulo)`.
pub fn sample_uniform_matrix(
    rng: &mut rand::rngs::StdRng,
    rows: usize,
    cols: usize,
    modulo: i64,
) -> (r: Vec<Vec<i64>>)
    requires
        modulo > 0,
    ensures
        is_matrix(r@, rows as int, cols as int),
        matrix_in_range(r@, modulo as int),
{
    let mut out: Vec<Vec<i64>> = Vec::with_capacity(rows);
    let mut i: usize = 0;
    while i < rows
        invariant
            i <= rows,
            modulo > 0,
            out@.len() == i,
            forall|k: int| 0 <= k < i ==> (#[trigger] out@[k])@.len() == cols,
            matrix_in_range(out@, modulo as int),
        decreases rows - i,
    {
        out.push(sample_uniform_vector(rng, cols, modulo));
        i = i + 1;
    }
    out
}

/// A polynomial of `size` coefficients drawn uniformly from `{-1, 0, 1}`.
pub fn gen_small_polynomial(rng: &mut rand::rngs::StdRng, size: usize) -> (r: Vec<i64>)
    ensures
        r@.len() == size,
        forall|i: int| 0 <= i < size ==> -1 <= #[trigger] r@[i] <= 1,
{
    let mut out: Vec<i64> = Vec::with_capacity(size);
    let mut i: usize = 0;
    while i < size
        invariant
            i <= size,
            out@.len() == i,
            forall|k: int| 0 <= k < i ==> -1 <= #[trigger] out@[k] <= 1,
        decreases size - i,
    {
        out.push(draw_range(rng, -1, 2));
        i = i + 1;
    }
    out
}

/// A cumulative frequency table for a symmetric discrete distribution: a draw
/// `u` uniform in `[0, total)` has magnitude the number of entries at most `u`,
/// and a fair sign.
pub struct CdfTable {
    pub cumulative: Vec<i64>,
}

/// The number of the first `k` entries of `t` that are at most `u`.
pub open spec fn count_at_most(t: Seq<i64>, u: int, k: int) -> int
    decreases k,
{
    if k <= 0 {
        0
    } else {
        count_at_most(t, u, k - 1) + if t[k - 1] <= u {
            1int
        } else {
            0int
        }
    }
}

/// The noise value that table `t` gives for the uniform draw `u` and sign bit `sign`.
pub open spec fn cdf_value(t: Seq<i64>, u: int, sign: int) -> int {
    let m = count_at_most(t, u, t.len() as int);
    if sign == 1 {
        -m
    } else {
        m
    }
}

/// `x` is a value that table `t` can produce.
pub open spec fn is_draw(t: Seq<i64>, x: int) -> bool {
    exists|u: int, sign: int|
        0 <= u < t.last() && 0 <= sign <= 1 && x == #[trigger] cdf_value(t, u, sign)
}

/// `y` is the residue modulo `q` of a value that table `t` can produce.
pub open spec fn is_reduced_draw(t: Seq<i64>, q: int, y: int) -> bool {
    exists|x: int|
        is_draw(t, x) && -(t.len() - 1) <= x <= t.len() - 1 && y == #[trigger] modq(x, q)
}

/// Tables have at most this many entries.
pub const TABLE_LIMIT: usize = 64;

/// Table totals stay at most this large.
pub const TOTAL_LIMIT: i64 = 0x100_0000_0000;

impl CdfTable {
    pub open spec fn wf(&self) -> bool {
        &&& 1 <= self.cumulative.len() <= TABLE_LIMIT
        &&& 0 < self.cumulative@.last() <= TOTAL_LIMIT
    }

    /// The largest magnitude the table can produce.
    pub open spec fn bound(&self) -> int {
        self.cumulative.len() - 1
    }

    /// Noise in `{-1, 0, 1}`, zero with probability one half.
    pub fn ternary() -> (r: CdfTable)
        ensures
            r.wf(),
            r.bound() == 1,
    {
        CdfTable { cumulative: vec![2, 4] }
    }

    /// A rounded-toward-zero normal distribution of standard deviation one,
    /// in parts per 1024, with magnitudes up to 3.
    pub fn unit_normal() -> (r: CdfTable)
        ensures
            r.wf(),
            r.bound() == 3,
    {
        CdfTable { cumulative: vec![699, 977, 1021, 1024] }
    }

    /// Noise in `{-1, 0, 1}` that is nonzero with probability `2^-20`.
    pub fn rare_unit() -> (r: CdfTable)
        ensures
            r.wf(),
            r.bound() == 1,
    {
        CdfTable { cumulative: vec![1048575, 1048576] }
    }
}

proof fn lemma_count_at_most_bound(t: Seq<i64>, u: int, k: int)
    requires
        0 <= k <= t.len(),
    ensures
        0 <= count_at_most(t, u, k) <= k,
    decreases k,
{
    if k > 0 {
        lemma_count_at_most_bound(t, u, k - 1);
    }
}

proof fn lemma_cdf_value_bound(t: Seq<i64>, u: int, sign: int)
    requires
        t.len() >= 1,
        u < t.last(),
    ensures
        -(t.len() - 1) <= cdf_value(t, u, sign) <= t.len() - 1,
{
    lemma_count_at_most_bound(t, u, t.len() - 1);
}

/// The noise value for the uniform draw `u` and the sign bit `sign`.
pub fn cdf_lookup(table: &CdfTable, u: i64, sign: i64) -> (r: i64)
    requires
        table.wf(),
        0 <= u < table.cumulative@.last(),
    ensures
        r == cdf_value(table.cumulative@, u as int, sign as int),
        -table.bound() <= r <= table.bound(),
{
    let t = &table.cumulative;
    let mut count: i64 = 0;
    let mut k: usize = 0;
    while k < t.len()
        invariant
            k <= t.len(),
            t.len() <= TABLE_LIMIT,
            count == count_at_most(t@, u as int, k as int),
            0 <= count <= k,
        decreases t.len() - k,
    {
        if t[k] <= u {
            count = count + 1;
        }
        k = k + 1;
    }
    proof {
        lemma_cdf_value_bound(t@, u as int, sign as int);
    }
    if sign == 1 {
        -count
    } else {
        count
    }
}

/// One noise value drawn with `table`.
pub fn sample_cdf(rng: &mut rand::rngs::StdRng, table: &CdfTable) -> (r: i64)
    requires
        table.wf(),
    ensures
        is_draw(table.cumulative@, r as int),
        -table.bound() <= r <= table.bound(),
{
    let total = table.cumulative[table.cumulative.len() - 1];
    let u = draw_range(rng, 0, total);
    let sign = draw_range(rng, 0, 2);
    let r = cdf_lookup(table, u, sign);
    assert(r == cdf_value(table.cumulative@, u as int, sign as int));
    r
}

/// `length` noise values drawn with `table`.
pub fn sample_noise(rng: &mut rand::rngs::StdRng, table: &CdfTable, length: usize) -> (r: Vec<i64>)
    requires
        table.wf(),
    ensures
        r@.len() == length,
        forall|i: int|
            0 <= i < length ==> is_draw(table.cumulative@, #[trigger] r@[i] as int) && -table.bound()
                <= r@[i] <= table.bound(),
{
    let mut out: Vec<i64> = Vec::with_capacity(length);
    let mut i: usize = 0;
    while i < length
        invariant
            i <= length,
            table.wf(),
            out@.len() == i,
            forall|k: int|
                0 <= k < i ==> is_draw(table.cumulative@, #[trigger] out@[k] as int)
                    && -table.bound() <= out@[k] <= table.bound(),
        decreases length - i,
    {
        out.push(sample_cdf(rng, table));
        i = i + 1;
    }
    out
}

/// `n` noise values drawn with `table`, each reduced into `[0, q)`.
pub fn sample_error(rng: &mut rand::rngs::StdRng, table: &CdfTable, n: usize, q: i64) -> (r: Vec<
    i64,
>)
    requires
        table.wf(),
        q > 0,
    ensures
        r@.len() == n,
        in_range(r@, q as int),
        forall|i: int| 0 <= i < n ==> is_reduced_draw(table.cumulative@, q as int, #[trigger] r@[i] as int),
{
    let mut out: Vec<i64> = Vec::with_capacity(n);
    let mut i: usize = 0;
    while i < n
        invariant
            i <= n,
            table.wf(),
            q > 0,
            out@.len() == i,
            in_range(out@, q as int),
            forall|k: int| 0 <= k < i ==> is_reduced_draw(table.cumulative@, q as int, #[trigger] out@[k] as int),
        decreases n - i,
    {
        let x = sample_cdf(rng, table);
        out.push(reduce_mod(x, q));
        i = i + 1;
    }
    out
}

/// `n` coefficients drawn uniformly from `[1, q)`: a secret with no zero coefficient.
pub fn generate_secret(rng: &mut rand::rngs::StdRng, n: usize, q: i64) -> (r: Vec<i64>)
    requires
        q > 1,
    ensures
        r@.len() == n,
        forall|i: int| 0 <= i < n ==> 1 <= #[trigger] r@[i] < q,
{
    let mut out: Vec<i64> = Vec::with_capacity(n);
    let mut i: usize = 0;
    while i < n
        invariant
            i <= n,
            q > 1,
            out@.len() == i,
            forall|k: int| 0 <= k < i ==> 1 <= #[trigger] out@[k] < q,
        decreases n - i,
    {
        out.push(draw_range(rng, 1, q));
        i = i + 1;
    }
    out
}

} // verus!
