//! Dense vector and matrix arithmetic over the integers, with reduction
//! modulo `q` applied where a value is stored.
use vstd::prelude::*;
use vstd::arithmetic::div_mod::*;
use vstd::arithmetic::mul::*;
use crate::sums::{sum, lemma_sum_assoc, lemma_sum_ext};
use crate::modular::{modq, reduce_mod};

verus! {

/// Entries of vectors and matrices stay strictly below this magnitude, so
/// that a product of two entries fits in 48 bits.
pub const ENTRY_LIMIT: i64 = 16777216;

/// Vectors have at most this many entries, so that a dot product fits in `i64`.
pub const LENGTH_LIMIT: usize = 16384;

/// Two operands whose dimensions should agree do not.
#[derive(Debug, Clone, Copy, PartialEq, Eq, Structural)]
pub struct DimensionMismatch {
    pub expected: usize,
    pub found: usize,
}

pub open spec fn bounded(v: Seq<i64>) -> bool {
    forall|i: int| 0 <= i < v.len() ==> -ENTRY_LIMIT < #[trigger] v[i] < ENTRY_LIMIT
}

/// Every entry has magnitude at most `bound`.
pub open spec fn small(v: Seq<i64>, bound: int) -> bool {
    forall|i: int| 0 <= i < v.len() ==> -bound <= #[trigger] v[i] <= bound
}

pub open spec fn in_range(v: Seq<i64>, q: int) -> bool {
    forall|i: int| 0 <= i < v.len() ==> 0 <= #[trigger] v[i] < q
}

pub open spec fn is_matrix(a: Seq<Vec<i64>>, rows: int, cols: int) -> bool {
    &&& a.len() == rows
    &&& forall|i: int| 0 <= i < rows ==> (#[trigger] a[i])@.len() == cols
}

pub open spec fn matrix_bounded(a: Seq<Vec<i64>>) -> bool {
    forall|i: int| 0 <= i < a.len() ==> bounded((#[trigger] a[i])@)
}

pub open spec fn matrix_in_range(a: Seq<Vec<i64>>, q: int) -> bool {
    forall|i: int| 0 <= i < a.len() ==> in_range((#[trigger] a[i])@, q)
}

/// Column `j` of a matrix given by its rows.
pub open spec fn column(a: Seq<Vec<i64>>, j: int) -> Seq<i64> {
    Seq::new(a.len(), |i: int| a[i]@[j])
}

/// The integer dot product of `u` with the first `u.len()` entries of `v`.
pub open spec fn dot(u: Seq<i64>, v: Seq<i64>) -> int {
    sum(u.len(), |i: int| u[i] as int * v[i] as int)
}

pub proof fn lemma_entry_product(x: i64, y: i64)
    requires
        -ENTRY_LIMIT < x < ENTRY_LIMIT,
        -ENTRY_LIMIT < y < ENTRY_LIMIT,
    ensures
        -0x1_0000_0000_0000 <= x as int * y as int <= 0x1_0000_0000_0000,
{
    assert(-0x1_0000_0000_0000 <= x as int * y as int <= 0x1_0000_0000_0000) by (nonlinear_arith)
        requires
            -16777216 < x < 16777216,
            -16777216 < y < 16777216,
    ;
}

/// The dot product of two vectors of equal length.
pub fn dot_product(u: &Vec<i64>, v: &Vec<i64>) -> (r: i64)
    requires
        u.len() == v.len(),
        u.len() <= LENGTH_LIMIT,
        bounded(u@),
        bounded(v@),
    ensures
        r == dot(u@, v@),
{
    let mut acc: i64 = 0;
    let mut i: usize = 0;
    while i < u.len()
        invariant
            i <= u.len(),
            u.len() == v.len(),
            u.len() <= LENGTH_LIMIT,
            bounded(u@),
            bounded(v@),
            acc == sum(i as nat, |k: int| u@[k] as int * v@[k] as int),
            -(i * 0x1_0000_0000_0000) <= acc <= i * 0x1_0000_0000_0000,
        decreases u.len() - i,
    {
        proof {
            lemma_entry_product(u@[i as int], v@[i as int]);
        }
        let t = u[i] * v[i];
        acc = acc + t;
        i = i + 1;
    }
    acc
}

/// Column `j` of a matrix with `rows` rows.
pub fn column_of(a: &Vec<Vec<i64>>, j: usize) -> (r: Vec<i64>)
    requires
        forall|i: int| 0 <= i < a.len() ==> j < (#[trigger] a@[i])@.len(),
    ensures
        r@ == column(a@, j as int),
{
    let mut out: Vec<i64> = Vec::with_capacity(a.len());
    let mut i: usize = 0;
    while i < a.len()
        invariant
            i <= a.len(),
            forall|k: int| 0 <= k < a.len() ==> j < (#[trigger] a@[k])@.len(),
            out@.len() == i,
            forall|k: int| 0 <= k < i ==> #[trigger] out@[k] == a@[k]@[j as int],
        decreases a.len() - i,
    {
        out.push(a[i][j]);
        i = i + 1;
    }
    assert(out@ =~= column(a@, j as int));
    out
}

/// The `cols` columns of a matrix, each as a vector.
pub fn transpose(a: &Vec<Vec<i64>>, cols: usize) -> (r: Vec<Vec<i64>>)
    requires
        forall|i: int| 0 <= i < a.len() ==> (#[trigger] a@[i])@.len() == cols,
    ensures
        r@.len() == cols,
        forall|j: int| 0 <= j < cols ==> (#[trigger] r@[j])@ == column(a@, j),
{
    let mut out: Vec<Vec<i64>> = Vec::with_capacity(cols);
    let mut j: usize = 0;
    while j < cols
        invariant
            j <= cols,
            forall|i: int| 0 <= i < a.len() ==> (#[trigger] a@[i])@.len() == cols,
            out@.len() == j,
            forall|k: int| 0 <= k < j ==> (#[trigger] out@[k])@ == column(a@, k),
        decreases cols - j,
    {
        out.push(column_of(a, j));
        j = j + 1;
    }
    out
}

/// The row vector `s` times the matrix `a` (`s.len()` rows, `cols` columns).
pub fn vector_matrix(s: &Vec<i64>, a: &Vec<Vec<i64>>, cols: usize) -> (r: Vec<i64>)
    requires
        is_matrix(a@, s.len() as int, cols as int),
        s.len() <= LENGTH_LIMIT,
        bounded(s@),
        matrix_bounded(a@),
    ensures
        r@.len() == cols,
        forall|j: int| 0 <= j < cols ==> #[trigger] r@[j] == dot(s@, column(a@, j)),
{
    let mut out: Vec<i64> = Vec::with_capacity(cols);
    let mut j: usize = 0;
    while j < cols
        invariant
            j <= cols,
            is_matrix(a@, s.len() as int, cols as int),
            s.len() <= LENGTH_LIMIT,
            bounded(s@),
            matrix_bounded(a@),
            out@.len() == j,
            forall|k: int| 0 <= k < j ==> #[trigger] out@[k] == dot(s@, column(a@, k)),
        decreases cols - j,
    {
        let c = column_of(a, j);
        assert(bounded(c@)) by {
            assert forall|i: int| 0 <= i < c@.len() implies -ENTRY_LIMIT < #[trigger] c@[i]
                < ENTRY_LIMIT by {
                assert(bounded(a@[i]@));
            }
        }
        out.push(dot_product(s, &c));
        j = j + 1;
    }
    out
}

/// The matrix `a` times the column vector `x`.
pub fn matrix_vector(a: &Vec<Vec<i64>>, x: &Vec<i64>) -> (r: Vec<i64>)
    requires
        is_matrix(a@, a.len() as int, x.len() as int),
        x.len() <= LENGTH_LIMIT,
        bounded(x@),
        matrix_bounded(a@),
    ensures
        r@.len() == a.len(),
        forall|i: int| 0 <= i < a.len() ==> #[trigger] r@[i] == dot(a@[i]@, x@),
{
    let mut out: Vec<i64> = Vec::with_capacity(a.len());
    let mut i: usize = 0;
    while i < a.len()
        invariant
            i <= a.len(),
            is_matrix(a@, a.len() as int, x.len() as int),
            x.len() <= LENGTH_LIMIT,
            bounded(x@),
            matrix_bounded(a@),
            out@.len() == i,
            forall|k: int| 0 <= k < i ==> #[trigger] out@[k] == dot(a@[k]@, x@),
        decreases a.len() - i,
    {
        assert(bounded(a@[i as int]@));
        out.push(dot_product(&a[i], x));
        i = i + 1;
    }
    out
}

/// The matrix product of `a` (`inner` columns) and `x` (`inner` rows, `cols` columns).
pub fn matrix_product(a: &Vec<Vec<i64>>, x: &Vec<Vec<i64>>, cols: usize) -> (r: Vec<Vec<i64>>)
    requires
        is_matrix(a@, a.len() as int, x.len() as int),
        is_matrix(x@, x.len() as int, cols as int),
        x.len() <= LENGTH_LIMIT,
        matrix_bounded(a@),
        matrix_bounded(x@),
    ensures
        is_matrix(r@, a.len() as int, cols as int),
        forall|i: int, l: int|
            0 <= i < a.len() && 0 <= l < cols ==> #[trigger] r@[i]@[l] == dot(
                a@[i]@,
                column(x@, l),
            ),
{
    let xt = transpose(x, cols);
    assert forall|l: int| 0 <= l < cols implies bounded((#[trigger] xt@[l])@) by {
        assert forall|k: int| 0 <= k < xt@[l]@.len() implies -ENTRY_LIMIT < #[trigger] xt@[l]@[k]
            < ENTRY_LIMIT by {
            assert(bounded(x@[k]@));
        }
    }
    let mut out: Vec<Vec<i64>> = Vec::with_capacity(a.len());
    let mut i: usize = 0;
    while i < a.len()
        invariant
            i <= a.len(),
            is_matrix(a@, a.len() as int, x.len() as int),
            x.len() <= LENGTH_LIMIT,
            matrix_bounded(a@),
            xt@.len() == cols,
            forall|l: int| 0 <= l < cols ==> (#[trigger] xt@[l])@ == column(x@, l),
            forall|l: int| 0 <= l < cols ==> bounded((#[trigger] xt@[l])@),
            out@.len() == i,
            forall|k: int| 0 <= k < i ==> (#[trigger] out@[k])@.len() == cols,
            forall|k: int, l: int|
                0 <= k < i && 0 <= l < cols ==> #[trigger] out@[k]@[l] == dot(
                    a@[k]@,
                    column(x@, l),
                ),
        decreases a.len() - i,
    {
        assert(bounded(a@[i as int]@));
        let mut row: Vec<i64> = Vec::with_capacity(cols);
        let mut l: usize = 0;
        while l < cols
            invariant
                i < a.len(),
                l <= cols,
                is_matrix(a@, a.len() as int, x.len() as int),
                x.len() <= LENGTH_LIMIT,
                bounded(a@[i as int]@),
                xt@.len() == cols,
                forall|l2: int| 0 <= l2 < cols ==> (#[trigger] xt@[l2])@ == column(x@, l2),
                forall|l2: int| 0 <= l2 < cols ==> bounded((#[trigger] xt@[l2])@),
                row@.len() == l,
                forall|l2: int| 0 <= l2 < l ==> #[trigger] row@[l2] == dot(a@[i as int]@, column(x@, l2)),
            decreases cols - l,
        {
            row.push(dot_product(&a[i], &xt[l]));
            l = l + 1;
        }
        out.push(row);
        i = i + 1;
    }
    out
}

/// Checks that `a` has `rows` rows of `cols` entries each.
pub fn check_matrix(a: &Vec<Vec<i64>>, rows: usize, cols: usize) -> (r: Result<(), DimensionMismatch>)
    ensures
        r is Ok <==> is_matrix(a@, rows as int, cols as int),
        r matches Err(d) ==> d.expected != d.found,
{
    if a.len() != rows {
        return Err(DimensionMismatch { expected: rows, found: a.len() });
    }
    let mut i: usize = 0;
    while i < a.len()
        invariant
            i <= a.len(),
            a.len() == rows,
            forall|k: int| 0 <= k < i ==> (#[trigger] a@[k])@.len() == cols,
        decreases a.len() - i,
    {
        if a[i].len() != cols {
            return Err(DimensionMismatch { expected: cols, found: a[i].len() });
        }
        i = i + 1;
    }
    Ok(())
}

pub proof fn lemma_in_range_bounded(v: Seq<i64>, q: int)
    requires
        in_range(v, q),
        q <= ENTRY_LIMIT,
    ensures
        bounded(v),
{
}

pub proof fn lemma_matrix_in_range_bounded(a: Seq<Vec<i64>>, q: int)
    requires
        matrix_in_range(a, q),
        q <= ENTRY_LIMIT,
    ensures
        matrix_bounded(a),
{
    assert forall|i: int| 0 <= i < a.len() implies bounded((#[trigger] a[i])@) by {
        lemma_in_range_bounded(a[i]@, q);
    }
}

/// `(s a) x == s (a x)` for a row vector `s`, a matrix `a` and a column vector `x`.
pub proof fn lemma_vector_matrix_assoc(s: Seq<i64>, a: Seq<Vec<i64>>, x: Seq<i64>)
    requires
        is_matrix(a, s.len() as int, x.len() as int),
    ensures
        sum(x.len(), |j: int| dot(s, column(a, j)) * x[j] as int) == sum(
            s.len(),
            |i: int| s[i] as int * dot(a[i]@, x),
        ),
{
    let n = s.len();
    let m = x.len();
    let fs = |i: int| s[i] as int;
    let fa = |i: int, j: int| a[i]@[j] as int;
    let fx = |j: int| x[j] as int;
    lemma_sum_assoc(n, m, fs, fa, fx);
    assert forall|j: int| 0 <= j < m implies sum(n, |i: int| fs(i) * fa(i, j)) * #[trigger] fx(j)
        == dot(s, column(a, j)) * x[j] as int by {
        lemma_sum_ext(n, |i: int| fs(i) * fa(i, j), |i: int| s[i] as int * column(a, j)[i] as int);
    }
    lemma_sum_ext(
        m,
        |j: int| sum(n, |i: int| fs(i) * fa(i, j)) * fx(j),
        |j: int| dot(s, column(a, j)) * x[j] as int,
    );
    assert forall|i: int| 0 <= i < n implies #[trigger] fs(i) * sum(m, |j: int| fa(i, j) * fx(j))
        == s[i] as int * dot(a[i]@, x) by {
        lemma_sum_ext(m, |j: int| fa(i, j) * fx(j), |j: int| a[i]@[j] as int * x[j] as int);
    }
    lemma_sum_ext(
        n,
        |i: int| fs(i) * sum(m, |j: int| fa(i, j) * fx(j)),
        |i: int| s[i] as int * dot(a[i]@, x),
    );
}

/// Entrywise sum; fails when the lengths differ.
pub fn add(a: &Vec<i64>, b: &Vec<i64>) -> (r: Result<Vec<i64>, DimensionMismatch>)
    requires
        a.len() == b.len() ==> forall|i: int|
            0 <= i < a.len() ==> i64::MIN <= #[trigger] a@[i] + b@[i] <= i64::MAX,
    ensures
        r is Ok <==> a.len() == b.len(),
        r matches Ok(v) ==> v@.len() == a.len() && forall|i: int|
            0 <= i < a.len() ==> #[trigger] v@[i] == a@[i] + b@[i],
        r matches Err(e) ==> e.expected == a.len() && e.found == b.len(),
{
    if a.len() != b.len() {
        return Err(DimensionMismatch { expected: a.len(), found: b.len() });
    }
    let mut out: Vec<i64> = Vec::with_capacity(a.len());
    let mut i: usize = 0;
    while i < a.len()
        invariant
            i <= a.len(),
            a.len() == b.len(),
            forall|k: int| 0 <= k < a.len() ==> i64::MIN <= #[trigger] a@[k] + b@[k] <= i64::MAX,
            out@.len() == i,
            forall|k: int| 0 <= k < i ==> #[trigger] out@[k] == a@[k] + b@[k],
        decreases a.len() - i,
    {
        out.push(a[i] + b[i]);
        i = i + 1;
    }
    Ok(out)
}

/// Entrywise difference; fails when the lengths differ.
pub fn sub(a: &Vec<i64>, b: &Vec<i64>) -> (r: Result<Vec<i64>, DimensionMismatch>)
    requires
        a.len() == b.len() ==> forall|i: int|
            0 <= i < a.len() ==> i64::MIN <= #[trigger] a@[i] - b@[i] <= i64::MAX,
    ensures
        r is Ok <==> a.len() == b.len(),
        r matches Ok(v) ==> v@.len() == a.len() && forall|i: int|
            0 <= i < a.len() ==> #[trigger] v@[i] == a@[i] - b@[i],
        r matches Err(e) ==> e.expected == a.len() && e.found == b.len(),
{
    if a.len() != b.len() {
        return Err(DimensionMismatch { expected: a.len(), found: b.len() });
    }
    let mut out: Vec<i64> = Vec::with_capacity(a.len());
    let mut i: usize = 0;
    while i < a.len()
        invariant
            i <= a.len(),
            a.len() == b.len(),
            forall|k: int| 0 <= k < a.len() ==> i64::MIN <= #[trigger] a@[k] - b@[k] <= i64::MAX,
            out@.len() == i,
            forall|k: int| 0 <= k < i ==> #[trigger] out@[k] == a@[k] - b@[k],
        decreases a.len() - i,
    {
        out.push(a[i] - b[i]);
        i = i + 1;
    }
    Ok(out)
}

/// Multiplies every entry by `c`.
pub fn scale(v: &Vec<i64>, c: i64) -> (r: Vec<i64>)
    requires
        forall|i: int| 0 <= i < v.len() ==> i64::MIN <= #[trigger] v@[i] * c <= i64::MAX,
    ensures
        r@.len() == v.len(),
        forall|i: int| 0 <= i < v.len() ==> #[trigger] r@[i] == v@[i] * c,
{
    let mut out: Vec<i64> = Vec::with_capacity(v.len());
    let mut i: usize = 0;
    while i < v.len()
        invariant
            i <= v.len(),
            forall|k: int| 0 <= k < v.len() ==> i64::MIN <= #[trigger] v@[k] * c <= i64::MAX,
            out@.len() == i,
            forall|k: int| 0 <= k < i ==> #[trigger] out@[k] == v@[k] * c,
        decreases v.len() - i,
    {
        out.push(v[i] * c);
        i = i + 1;
    }
    out
}

/// Reduces every entry into `[0, q)`.
pub fn modular(v: &Vec<i64>, q: i64) -> (r: Vec<i64>)
    requires
        q > 0,
    ensures
        r@.len() == v.len(),
        forall|i: int| 0 <= i < v.len() ==> #[trigger] r@[i] == modq(v@[i] as int, q as int),
        in_range(r@, q as int),
{
    let mut out: Vec<i64> = Vec::with_capacity(v.len());
    let mut i: usize = 0;
    while i < v.len()
        invariant
            i <= v.len(),
            q > 0,
            out@.len() == i,
            forall|k: int| 0 <= k < i ==> #[trigger] out@[k] == modq(v@[k] as int, q as int),
            in_range(out@, q as int),
        decreases v.len() - i,
    {
        out.push(reduce_mod(v[i], q));
        i = i + 1;
    }
    out
}

/// Reduces every entry of a matrix into `[0, q)`.
pub fn modular_mat(a: &Vec<Vec<i64>>, q: i64) -> (r: Vec<Vec<i64>>)
    requires
        q > 0,
    ensures
        r@.len() == a.len(),
        forall|i: int| 0 <= i < a.len() ==> (#[trigger] r@[i])@.len() == a@[i]@.len(),
        forall|i: int, j: int|
            0 <= i < a.len() && 0 <= j < a@[i]@.len() ==> (#[trigger] r@[i]@[j]) == modq(
                a@[i]@[j] as int,
                q as int,
            ),
        matrix_in_range(r@, q as int),
{
    let mut out: Vec<Vec<i64>> = Vec::with_capacity(a.len());
    let mut i: usize = 0;
    while i < a.len()
        invariant
            i <= a.len(),
            q > 0,
            out@.len() == i,
            forall|k: int| 0 <= k < i ==> (#[trigger] out@[k])@.len() == a@[k]@.len(),
            forall|k: int, j: int|
                0 <= k < i && 0 <= j < a@[k]@.len() ==> (#[trigger] out@[k]@[j]) == modq(
                    a@[k]@[j] as int,
                    q as int,
                ),
            matrix_in_range(out@, q as int),
        decreases a.len() - i,
    {
        out.push(modular(&a[i], q));
        i = i + 1;
    }
    out
}

} // verus!
