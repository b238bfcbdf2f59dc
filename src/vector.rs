//! Fixed-point vector algebra: elementwise arithmetic and the two metrics.
use vstd::prelude::*;

verus! {

/// Fixed-point scale: a component `x` stands for the real number `x / SCALE`.
pub const SCALE: i64 = 1_000_000;

/// Largest magnitude a component may have (about 67.1 in real units).
pub const LIMIT: i64 = 67_108_864;

/// Largest supported dimension.
pub const MAX_DIM: usize = 2048;

/// Errors of the vector operations.
#[derive(Debug, Clone, Copy, PartialEq, Eq, Structural)]
pub enum VectorError {
    /// The operands have different lengths.
    DimensionMismatch,
    /// An aggregate was asked of no vectors at all.
    EmptyInput,
    /// A component of the result would leave `[-LIMIT, LIMIT]`.
    OutOfRange,
}

/// A component magnitude that a vector may hold.
pub open spec fn in_limit(x: int) -> bool {
    -LIMIT <= x <= LIMIT
}

/// A well-formed vector: bounded dimension and bounded components.
pub open spec fn valid(v: Seq<i64>) -> bool {
    v.len() <= MAX_DIM && forall|i: int| 0 <= i < v.len() ==> in_limit(#[trigger] v[i] as int)
}

/// Every vector of `vs` is well formed.
pub open spec fn all_valid(vs: Seq<Vec<i64>>) -> bool {
    forall|j: int| 0 <= j < vs.len() ==> valid(#[trigger] vs[j]@)
}

/// Every vector of `vs` has length `d`.
pub open spec fn all_of_dim(vs: Seq<Vec<i64>>, d: int) -> bool {
    forall|j: int| 0 <= j < vs.len() ==> #[trigger] vs[j]@.len() == d
}

/// Elementwise sum, as mathematical integers.
pub open spec fn sum_at(a: Seq<i64>, b: Seq<i64>, i: int) -> int {
    a[i] + b[i]
}

/// Elementwise difference, as mathematical integers.
pub open spec fn diff_at(a: Seq<i64>, b: Seq<i64>, i: int) -> int {
    a[i] - b[i]
}

/// Sum of component `i` over the first `k` vectors of `vs`.
pub open spec fn column_total(vs: Seq<Vec<i64>>, k: int, i: int) -> int
    decreases k,
{
    if k <= 0 {
        0
    } else {
        column_total(vs, k - 1, i) + vs[k - 1]@[i]
    }
}

/// Division rounding toward zero, for `n > 0`.
pub open spec fn trunc_div(x: int, n: int) -> int {
    if x >= 0 {
        x / n
    } else {
        -((-x) / n)
    }
}

/// Dot product of the first `n` components.
pub open spec fn dot_prefix(a: Seq<i64>, b: Seq<i64>, n: int) -> int
    decreases n,
{
    if n <= 0 {
        0
    } else {
        dot_prefix(a, b, n - 1) + a[n - 1] * b[n - 1]
    }
}

/// Dot product.
pub open spec fn dot(a: Seq<i64>, b: Seq<i64>) -> int {
    dot_prefix(a, b, a.len() as int)
}

/// Squared Euclidean norm.
pub open spec fn norm2(a: Seq<i64>) -> int {
    dot(a, a)
}

/// Squared distance over the first `n` components.
pub open spec fn sq_dist_prefix(a: Seq<i64>, b: Seq<i64>, n: int) -> int
    decreases n,
{
    if n <= 0 {
        0
    } else {
        sq_dist_prefix(a, b, n - 1) + (a[n - 1] - b[n - 1]) * (a[n - 1] - b[n - 1])
    }
}

/// Squared Euclidean distance.
pub open spec fn squared_distance(a: Seq<i64>, b: Seq<i64>) -> int {
    sq_dist_prefix(a, b, a.len() as int)
}

/// Floor of the square root.
pub open spec fn floor_sqrt(n: nat) -> nat
    decreases n,
{
    if n == 0 {
        0
    } else {
        let r = floor_sqrt((n - 1) as nat);
        if (r + 1) * (r + 1) <= n {
            (r + 1) as nat
        } else {
            r
        }
    }
}

/// Cosine similarity in fixed point (`SCALE` stands for 1), rounded toward
/// zero; zero when either vector is the zero vector.
pub open spec fn cosine(a: Seq<i64>, b: Seq<i64>) -> int {
    let na = norm2(a);
    let nb = norm2(b);
    if na == 0 || nb == 0 {
        0
    } else {
        trunc_div(dot(a, b) * SCALE, floor_sqrt((na * nb) as nat) as int)
    }
}

/// Euclidean distance in fixed point, rounded down.
pub open spec fn distance(a: Seq<i64>, b: Seq<i64>) -> int {
    floor_sqrt(squared_distance(a, b) as nat) as int
}

/// Integer square root: the largest `r` with `r * r <= n`.
pub open spec fn is_isqrt(n: int, r: int) -> bool {
    0 <= r && r * r <= n && n < (r + 1) * (r + 1)
}

/// Floor of the square root, by bisection.
pub fn isqrt(n: u128) -> (r: u128)
    ensures
        is_isqrt(n as int, r as int),
{
    let mut lo: u128 = 0;
    let mut hi: u128 = 0x1_0000_0000_0000_0000u128;
    assert(hi * hi == 0x1_0000_0000_0000_0000_0000_0000_0000_0000int) by (nonlinear_arith)
        requires hi == 0x1_0000_0000_0000_0000u128;
    while hi - lo > 1
        invariant
            lo < hi <= 0x1_0000_0000_0000_0000u128,
            lo * lo <= n,
            n < hi * hi,
        decreases hi - lo,
    {
        let mid = lo + (hi - lo) / 2;
        assert(mid * mid < 0x1_0000_0000_0000_0000_0000_0000_0000_0000int) by (nonlinear_arith)
            requires mid < 0x1_0000_0000_0000_0000u128;
        if mid * mid <= n {
            lo = mid;
        } else {
            hi = mid;
        }
    }
    lo
}

/// `floor_sqrt(n)` is the integer square root of `n`.
pub proof fn lemma_floor_sqrt(n: nat)
    ensures
        is_isqrt(n as int, floor_sqrt(n) as int),
    decreases n,
{
    if n > 0 {
        lemma_floor_sqrt((n - 1) as nat);
        let r = floor_sqrt((n - 1) as nat) as int;
        if (r + 1) * (r + 1) <= n {
            assert(n < (r + 2) * (r + 2)) by (nonlinear_arith)
                requires n - 1 < (r + 1) * (r + 1), 0 <= r;
        }
    }
}

/// The integer square root is unique.
pub proof fn lemma_isqrt_unique(n: int, r: int)
    requires
        n >= 0,
        is_isqrt(n, r),
    ensures
        r == floor_sqrt(n as nat),
{
    lemma_floor_sqrt(n as nat);
    let s = floor_sqrt(n as nat) as int;
    if r < s {
        assert((r + 1) * (r + 1) <= s * s) by (nonlinear_arith)
            requires 0 <= r, r + 1 <= s;
    } else if s < r {
        assert((s + 1) * (s + 1) <= r * r) by (nonlinear_arith)
            requires 0 <= s, s + 1 <= r;
    }
}

/// The square root of a perfect square is exact.
pub proof fn lemma_sqrt_of_square(m: nat)
    ensures
        floor_sqrt(m * m) == m,
{
    assert(m * m < (m + 1) * (m + 1)) by (nonlinear_arith);
    lemma_isqrt_unique((m * m) as int, m as int);
}

/// Elementwise sum; fails on different lengths or a component out of range.
pub fn add(a: &Vec<i64>, b: &Vec<i64>) -> (r: Result<Vec<i64>, VectorError>)
    requires
        valid(a@),
        valid(b@),
    ensures
        a@.len() != b@.len() <==> r == Err::<Vec<i64>, VectorError>(VectorError::DimensionMismatch),
        r == Err::<Vec<i64>, VectorError>(VectorError::OutOfRange) <==> (a@.len() == b@.len()
            && exists|i: int| 0 <= i < a@.len() && !in_limit(#[trigger] sum_at(a@, b@, i))),
        r is Ok ==> r->Ok_0@.len() == a@.len() && forall|i: int|
            0 <= i < a@.len() ==> r->Ok_0@[i] == #[trigger] sum_at(a@, b@, i),
        (a@.len() == b@.len() && forall|i: int|
            0 <= i < a@.len() ==> in_limit(#[trigger] sum_at(a@, b@, i))) ==> r is Ok,
        r is Ok ==> valid(r->Ok_0@),
{
    if a.len() != b.len() {
        return Err(VectorError::DimensionMismatch);
    }
    let mut out: Vec<i64> = Vec::new();
    let mut i: usize = 0;
    while i < a.len()
        invariant
            valid(a@),
            valid(b@),
            a@.len() == b@.len(),
            i <= a@.len(),
            out@.len() == i,
            forall|k: int| 0 <= k < i ==> out@[k] == #[trigger] sum_at(a@, b@, k),
            forall|k: int| 0 <= k < i ==> in_limit(#[trigger] sum_at(a@, b@, k)),
        decreases a@.len() - i,
    {
        assert(in_limit(a@[i as int] as int) && in_limit(b@[i as int] as int));
        let x = a[i] + b[i];
        if x < -LIMIT || x > LIMIT {
            assert(!in_limit(sum_at(a@, b@, i as int)));
            return Err(VectorError::OutOfRange);
        }
        out.push(x);
        i += 1;
    }
    assert forall|k: int| 0 <= k < out@.len() implies in_limit(#[trigger] out@[k] as int) by {
        assert(out@[k] == sum_at(a@, b@, k));
    }
    Ok(out)
}

/// Elementwise difference; fails on different lengths or a component out of range.
pub fn subtract(a: &Vec<i64>, b: &Vec<i64>) -> (r: Result<Vec<i64>, VectorError>)
    requires
        valid(a@),
        valid(b@),
    ensures
        a@.len() != b@.len() <==> r == Err::<Vec<i64>, VectorError>(VectorError::DimensionMismatch),
        r == Err::<Vec<i64>, VectorError>(VectorError::OutOfRange) <==> (a@.len() == b@.len()
            && exists|i: int| 0 <= i < a@.len() && !in_limit(#[trigger] diff_at(a@, b@, i))),
        r is Ok ==> r->Ok_0@.len() == a@.len() && forall|i: int|
            0 <= i < a@.len() ==> r->Ok_0@[i] == #[trigger] diff_at(a@, b@, i),
        (a@.len() == b@.len() && forall|i: int|
            0 <= i < a@.len() ==> in_limit(#[trigger] diff_at(a@, b@, i))) ==> r is Ok,
        r is Ok ==> valid(r->Ok_0@),
{
    if a.len() != b.len() {
        return Err(VectorError::DimensionMismatch);
    }
    let mut out: Vec<i64> = Vec::new();
    let mut i: usize = 0;
    while i < a.len()
        invariant
            valid(a@),
            valid(b@),
            a@.len() == b@.len(),
            i <= a@.len(),
            out@.len() == i,
            forall|k: int| 0 <= k < i ==> out@[k] == #[trigger] diff_at(a@, b@, k),
            forall|k: int| 0 <= k < i ==> in_limit(#[trigger] diff_at(a@, b@, k)),
        decreases a@.len() - i,
    {
        assert(in_limit(a@[i as int] as int) && in_limit(b@[i as int] as int));
        let x = a[i] - b[i];
        if x < -LIMIT || x > LIMIT {
            assert(!in_limit(diff_at(a@, b@, i as int)));
            return Err(VectorError::OutOfRange);
        }
        out.push(x);
        i += 1;
    }
    assert forall|k: int| 0 <= k < out@.len() implies in_limit(#[trigger] out@[k] as int) by {
        assert(out@[k] == diff_at(a@, b@, k));
    }
    Ok(out)
}

/// The column totals of vectors that all have length `d`.
fn column_totals(vectors: &Vec<Vec<i64>>, d: usize) -> (r: Vec<i128>)
    requires
        all_valid(vectors@),
        all_of_dim(vectors@, d as int),
    ensures
        r@.len() == d,
        forall|i: int| 0 <= i < d ==> r@[i] == column_total(vectors@, vectors@.len() as int, i),
        forall|i: int|
            0 <= i < d ==> -(vectors@.len() * LIMIT) <= #[trigger] r@[i] <= vectors@.len() * LIMIT,
{
    let mut acc: Vec<i128> = Vec::new();
    let mut i: usize = 0;
    while i < d
        invariant
            i <= d,
            acc@.len() == i,
            forall|k: int| 0 <= k < i ==> acc@[k] == 0,
        decreases d - i,
    {
        acc.push(0);
        i += 1;
    }
    let mut j: usize = 0;
    while j < vectors.len()
        invariant
            all_valid(vectors@),
            all_of_dim(vectors@, d as int),
            j <= vectors@.len(),
            acc@.len() == d,
            forall|k: int| 0 <= k < d ==> acc@[k] == column_total(vectors@, j as int, k),
            forall|k: int| 0 <= k < d ==> -(j * LIMIT) <= #[trigger] acc@[k] <= j * LIMIT,
        decreases vectors@.len() - j,
    {
        let v = &vectors[j];
        assert(valid(v@) && v@.len() == d);
        let mut i: usize = 0;
        while i < d
            invariant
                all_valid(vectors@),
                all_of_dim(vectors@, d as int),
                j < vectors@.len(),
                v == vectors@[j as int],
                valid(v@),
                v@.len() == d,
                i <= d,
                acc@.len() == d,
                forall|k: int| 0 <= k < i ==> acc@[k] == column_total(vectors@, j + 1, k),
                forall|k: int| i <= k < d ==> acc@[k] == column_total(vectors@, j as int, k),
                forall|k: int| 0 <= k < i ==> -((j + 1) * LIMIT) <= #[trigger] acc@[k] <= (j + 1) * LIMIT,
                forall|k: int| i <= k < d ==> -(j * LIMIT) <= #[trigger] acc@[k] <= j * LIMIT,
            decreases d - i,
        {
            assert(in_limit(v@[i as int] as int));
            let x = acc[i] + v[i] as i128;
            acc.set(i, x);
            i += 1;
        }
        j += 1;
    }
    acc
}

/// Whether every vector has the length of the first.
fn same_dimension(vectors: &Vec<Vec<i64>>, d: usize) -> (r: bool)
    ensures
        r == all_of_dim(vectors@, d as int),
{
    let mut j: usize = 0;
    while j < vectors.len()
        invariant
            j <= vectors@.len(),
            all_of_dim(vectors@.subrange(0, j as int), d as int),
        decreases vectors@.len() - j,
    {
        if vectors[j].len() != d {
            return false;
        }
        assert(all_of_dim(vectors@.subrange(0, j + 1), d as int)) by {
            assert forall|k: int| 0 <= k < j + 1 implies #[trigger] vectors@.subrange(0, j + 1)[k]@.len() == d by {
                if k < j {
                    assert(vectors@.subrange(0, j + 1)[k] == vectors@.subrange(0, j as int)[k]);
                }
            }
        }
        j += 1;
    }
    assert(vectors@.subrange(0, j as int) =~= vectors@);
    true
}

/// Elementwise sum of a nonempty sequence of vectors of one length.
pub fn sum(vectors: &Vec<Vec<i64>>) -> (r: Result<Vec<i64>, VectorError>)
    requires
        all_valid(vectors@),
    ensures
        vectors@.len() == 0 <==> r == Err::<Vec<i64>, VectorError>(VectorError::EmptyInput),
        r == Err::<Vec<i64>, VectorError>(VectorError::DimensionMismatch) <==> (vectors@.len() > 0
            && !all_of_dim(vectors@, vectors@[0]@.len() as int)),
        r == Err::<Vec<i64>, VectorError>(VectorError::OutOfRange) <==> (vectors@.len() > 0
            && all_of_dim(vectors@, vectors@[0]@.len() as int) && exists|i: int|
            0 <= i < vectors@[0]@.len() && !in_limit(
                #[trigger] column_total(vectors@, vectors@.len() as int, i),
            )),
        r is Ok ==> r->Ok_0@.len() == vectors@[0]@.len() && forall|i: int|
            0 <= i < r->Ok_0@.len() ==> r->Ok_0@[i] == #[trigger] column_total(
                vectors@,
                vectors@.len() as int,
                i,
            ),
        r is Ok ==> valid(r->Ok_0@),
{
    if vectors.len() == 0 {
        return Err(VectorError::EmptyInput);
    }
    let d = vectors[0].len();
    if !same_dimension(vectors, d) {
        return Err(VectorError::DimensionMismatch);
    }
    let totals = column_totals(vectors, d);
    let mut out: Vec<i64> = Vec::new();
    let mut i: usize = 0;
    while i < d
        invariant
            i <= d,
            totals@.len() == d,
            out@.len() == i,
            forall|k: int| 0 <= k < d ==> totals@[k] == column_total(vectors@, vectors@.len() as int, k),
            forall|k: int| 0 <= k < i ==> out@[k] == #[trigger] column_total(vectors@, vectors@.len() as int, k),
            forall|k: int| 0 <= k < i ==> in_limit(#[trigger] column_total(vectors@, vectors@.len() as int, k)),
            vectors@.len() > 0,
            d == vectors@[0]@.len(),
            all_of_dim(vectors@, d as int),
        decreases d - i,
    {
        let x = totals[i];
        if x < -(LIMIT as i128) || x > LIMIT as i128 {
            assert(!in_limit(column_total(vectors@, vectors@.len() as int, i as int)));
            return Err(VectorError::OutOfRange);
        }
        out.push(x as i64);
        i += 1;
    }
    assert(valid(vectors@[0]@));
    assert forall|k: int| 0 <= k < out@.len() implies in_limit(#[trigger] out@[k] as int) by {
        assert(out@[k] == column_total(vectors@, vectors@.len() as int, k));
    }
    Ok(out)
}

/// `trunc_div` keeps a value bounded by `n * LIMIT` within the limit.
proof fn lemma_trunc_div_bound(x: int, n: int)
    requires
        n >= 1,
        -(n * LIMIT) <= x <= n * LIMIT,
    ensures
        in_limit(trunc_div(x, n)),
        0 <= x ==> 0 <= x / n <= x,
        x < 0 ==> 0 <= (-x) / n <= -x,
{
    assert(0 <= x ==> x / n <= LIMIT && 0 <= x / n <= x) by (nonlinear_arith)
        requires n >= 1, x <= n * LIMIT;
    assert(x < 0 ==> (-x) / n <= LIMIT && 0 <= (-x) / n <= -x) by (nonlinear_arith)
        requires n >= 1, -x <= n * LIMIT;
}

/// Elementwise mean of a nonempty sequence of vectors of one length,
/// each component rounded toward zero.
pub fn average(vectors: &Vec<Vec<i64>>) -> (r: Result<Vec<i64>, VectorError>)
    requires
        all_valid(vectors@),
    ensures
        vectors@.len() == 0 <==> r == Err::<Vec<i64>, VectorError>(VectorError::EmptyInput),
        r == Err::<Vec<i64>, VectorError>(VectorError::DimensionMismatch) <==> (vectors@.len() > 0
            && !all_of_dim(vectors@, vectors@[0]@.len() as int)),
        r is Ok ==> r->Ok_0@.len() == vectors@[0]@.len() && forall|i: int|
            0 <= i < r->Ok_0@.len() ==> r->Ok_0@[i] == #[trigger] trunc_div(
                column_total(vectors@, vectors@.len() as int, i),
                vectors@.len() as int,
            ),
        (vectors@.len() > 0 && all_of_dim(vectors@, vectors@[0]@.len() as int)) ==> r is Ok,
        r is Ok ==> valid(r->Ok_0@),
{
    if vectors.len() == 0 {
        return Err(VectorError::EmptyInput);
    }
    let d = vectors[0].len();
    if !same_dimension(vectors, d) {
        return Err(VectorError::DimensionMismatch);
    }
    assert(valid(vectors@[0]@));
    let totals = column_totals(vectors, d);
    let n = vectors.len();
    let mut out: Vec<i64> = Vec::new();
    let mut i: usize = 0;
    while i < d
        invariant
            i <= d,
            n == vectors@.len(),
            n >= 1,
            totals@.len() == d,
            forall|k: int| 0 <= k < d ==> totals@[k] == column_total(vectors@, n as int, k),
            forall|k: int| 0 <= k < d ==> -(n * LIMIT) <= #[trigger] totals@[k] <= n * LIMIT,
            out@.len() == i,
            d == vectors@[0]@.len(),
            forall|k: int| 0 <= k < i ==> out@[k] == #[trigger] trunc_div(column_total(vectors@, n as int, k), n as int),
            forall|k: int| 0 <= k < i ==> in_limit(#[trigger] out@[k] as int),
            d <= MAX_DIM,
        decreases d - i,
    {
        let x = totals[i];
        proof {
            lemma_trunc_div_bound(x as int, n as int);
        }
        let q: i128 = if x >= 0 {
            ((x as u128) / (n as u128)) as i128
        } else {
            -((((-x) as u128) / (n as u128)) as i128)
        };
        assert(q == trunc_div(x as int, n as int));
        out.push(q as i64);
        i += 1;
    }
    Ok(out)
}

/// A sum of squares is never negative.
pub proof fn lemma_dot_self_nonneg(a: Seq<i64>, n: int)
    ensures
        dot_prefix(a, a, n) >= 0,
    decreases n,
{
    if n > 0 {
        lemma_dot_self_nonneg(a, n - 1);
        let x = a[n - 1] as int;
        assert(x * x >= 0) by (nonlinear_arith);
    }
}

/// The quadratic form `x^2 |b|^2 - 2xy (a.b) + y^2 |a|^2`, which is a sum of
/// squares, is never negative.
proof fn lemma_quadratic_nonneg(a: Seq<i64>, b: Seq<i64>, n: int, x: int, y: int)
    ensures
        x * x * dot_prefix(b, b, n) - 2 * x * y * dot_prefix(a, b, n) + y * y * dot_prefix(a, a, n)
            >= 0,
    decreases n,
{
    if n > 0 {
        lemma_quadratic_nonneg(a, b, n - 1, x, y);
        let p = a[n - 1] as int;
        let q = b[n - 1] as int;
        let bb = dot_prefix(b, b, n - 1);
        let ab = dot_prefix(a, b, n - 1);
        let aa = dot_prefix(a, a, n - 1);
        let xx = x * x;
        let yy = y * y;
        let xy = x * y;
        let u = x * q;
        let v = y * p;
        assert((u - v) * (u - v) == u * u - 2 * (u * v) + v * v) by (nonlinear_arith);
        assert(u * u == xx * (q * q)) by (nonlinear_arith)
            requires u == x * q, xx == x * x;
        assert(v * v == yy * (p * p)) by (nonlinear_arith)
            requires v == y * p, yy == y * y;
        assert(u * v == xy * (p * q)) by (nonlinear_arith)
            requires u == x * q, v == y * p, xy == x * y;
        assert((u - v) * (u - v) >= 0) by (nonlinear_arith);
        assert(xx * (bb + q * q) == xx * bb + xx * (q * q)) by (nonlinear_arith);
        assert(xy * (ab + p * q) == xy * ab + xy * (p * q)) by (nonlinear_arith);
        assert(yy * (aa + p * p) == yy * aa + yy * (p * p)) by (nonlinear_arith);
        assert(x * x * (bb + q * q) == xx * (bb + q * q));
        assert(2 * x * y * (ab + p * q) == 2 * (xy * (ab + p * q))) by (nonlinear_arith)
            requires xy == x * y;
        assert(2 * x * y * ab == 2 * (xy * ab)) by (nonlinear_arith)
            requires xy == x * y;
    }
}

/// Cauchy-Schwarz: `(a.b)^2 <= |a|^2 |b|^2`.
pub proof fn lemma_cauchy_schwarz(a: Seq<i64>, b: Seq<i64>, n: int)
    ensures
        dot_prefix(a, b, n) * dot_prefix(a, b, n) <= dot_prefix(a, a, n) * dot_prefix(b, b, n),
    decreases n,
{
    if n > 0 {
        lemma_cauchy_schwarz(a, b, n - 1);
        let x = a[n - 1] as int;
        let y = b[n - 1] as int;
        lemma_quadratic_nonneg(a, b, n - 1, x, y);
        let bb = dot_prefix(b, b, n - 1);
        let ab = dot_prefix(a, b, n - 1);
        let aa = dot_prefix(a, a, n - 1);
        let xx = x * x;
        let yy = y * y;
        let xy = x * y;
        assert((ab + xy) * (ab + xy) == ab * ab + 2 * (xy * ab) + xy * xy) by (nonlinear_arith);
        assert((aa + xx) * (bb + yy) == aa * bb + yy * aa + xx * bb + xx * yy) by (nonlinear_arith);
        assert(xy * xy == xx * yy) by (nonlinear_arith)
            requires xx == x * x, yy == y * y, xy == x * y;
        assert(2 * x * y * ab == 2 * (xy * ab)) by (nonlinear_arith)
            requires xy == x * y;
        assert(x * x * bb == xx * bb);
        assert(y * y * aa == yy * aa);
    }
}

/// The dot product of two vectors of one length.
pub fn dot_product(a: &Vec<i64>, b: &Vec<i64>) -> (r: i128)
    requires
        valid(a@),
        valid(b@),
        a@.len() == b@.len(),
    ensures
        r == dot(a@, b@),
        -0x8000_0000_0000_0000 <= r <= 0x8000_0000_0000_0000,
{
    let mut acc: i128 = 0;
    let mut i: usize = 0;
    while i < a.len()
        invariant
            valid(a@),
            valid(b@),
            a@.len() == b@.len(),
            i <= a@.len(),
            acc == dot_prefix(a@, b@, i as int),
            -(i * 0x10_0000_0000_0000) <= acc <= i * 0x10_0000_0000_0000,
        decreases a@.len() - i,
    {
        let x = a[i];
        let y = b[i];
        assert(in_limit(x as int) && in_limit(y as int));
        assert(-0x10_0000_0000_0000 <= x * y <= 0x10_0000_0000_0000) by (nonlinear_arith)
            requires in_limit(x as int), in_limit(y as int);
        acc = acc + (x as i128) * (y as i128);
        i += 1;
    }
    acc
}

/// The squared Euclidean distance of two vectors of one length.
pub fn squared_euclidean_distance(a: &Vec<i64>, b: &Vec<i64>) -> (r: i128)
    requires
        valid(a@),
        valid(b@),
        a@.len() == b@.len(),
    ensures
        r == squared_distance(a@, b@),
        0 <= r <= 0x2_0000_0000_0000_0000,
{
    let mut acc: i128 = 0;
    let mut i: usize = 0;
    while i < a.len()
        invariant
            valid(a@),
            valid(b@),
            a@.len() == b@.len(),
            i <= a@.len(),
            acc == sq_dist_prefix(a@, b@, i as int),
            0 <= acc <= i * 0x40_0000_0000_0000,
        decreases a@.len() - i,
    {
        let x = a[i];
        let y = b[i];
        assert(in_limit(x as int) && in_limit(y as int));
        let e = (x - y) as i128;
        assert(0 <= e * e <= 0x40_0000_0000_0000) by (nonlinear_arith)
            requires -0x800_0000 <= e <= 0x800_0000;
        acc = acc + e * e;
        i += 1;
    }
    acc
}

/// Euclidean distance in fixed point, rounded down.
pub fn euclidean_distance(a: &Vec<i64>, b: &Vec<i64>) -> (r: i64)
    requires
        valid(a@),
        valid(b@),
        a@.len() == b@.len(),
    ensures
        r == distance(a@, b@),
        r >= 0,
{
    let sq = squared_euclidean_distance(a, b);
    let root = isqrt(sq as u128);
    proof {
        lemma_isqrt_unique(sq as int, root as int);
        if root > 0x2_0000_0000 {
            assert(root * root > 0x4_0000_0000_0000_0000) by (nonlinear_arith)
                requires root > 0x2_0000_0000;
        }
    }
    root as i64
}

/// Cosine similarity in fixed point (`SCALE` stands for 1), rounded toward
/// zero; zero when either vector is the zero vector.
pub fn cosine_similarity(a: &Vec<i64>, b: &Vec<i64>) -> (r: i64)
    requires
        valid(a@),
        valid(b@),
        a@.len() == b@.len(),
    ensures
        r == cosine(a@, b@),
        -SCALE <= r <= SCALE,
{
    let d = dot_product(a, b);
    let na = dot_product(a, a);
    let nb = dot_product(b, b);
    proof {
        lemma_dot_self_nonneg(a@, a@.len() as int);
        lemma_dot_self_nonneg(b@, b@.len() as int);
    }
    if na == 0 || nb == 0 {
        return 0;
    }
    assert(0 < na * nb <= 0x4000_0000_0000_0000_0000_0000_0000_0000) by (nonlinear_arith)
        requires 0 < na <= 0x8000_0000_0000_0000, 0 < nb <= 0x8000_0000_0000_0000;
    let p = (na as u128) * (nb as u128);
    let root = isqrt(p);
    let mag: u128 = if d >= 0 {
        d as u128
    } else {
        (-d) as u128
    };
    proof {
        lemma_isqrt_unique(p as int, root as int);
        lemma_cauchy_schwarz(a@, b@, a@.len() as int);
        assert(mag * mag == d * d) by (nonlinear_arith)
            requires mag == d || mag == -d;
        if mag > root {
            assert(mag * mag >= (root + 1) * (root + 1)) by (nonlinear_arith)
                requires mag >= root + 1, root >= 0;
        }
        assert(root >= 1) by (nonlinear_arith)
            requires p >= 1, p < (root + 1) * (root + 1), root >= 0;
        assert((mag as int) * 1_000_000 / (root as int) <= 1_000_000) by (nonlinear_arith)
            requires mag <= root, root >= 1;
    }
    let q = (mag * (SCALE as u128)) / root;
    if d >= 0 {
        q as i64
    } else {
        -(q as i64)
    }
}

/// The dot product does not depend on the order of its operands.
pub proof fn lemma_dot_symmetric(a: Seq<i64>, b: Seq<i64>, n: int)
    ensures
        dot_prefix(a, b, n) == dot_prefix(b, a, n),
    decreases n,
{
    if n > 0 {
        lemma_dot_symmetric(a, b, n - 1);
        assert(a[n - 1] * b[n - 1] == b[n - 1] * a[n - 1]) by (nonlinear_arith);
    }
}

/// The squared distance does not depend on the order of its operands.
pub proof fn lemma_sq_dist_symmetric(a: Seq<i64>, b: Seq<i64>, n: int)
    ensures
        sq_dist_prefix(a, b, n) == sq_dist_prefix(b, a, n),
    decreases n,
{
    if n > 0 {
        lemma_sq_dist_symmetric(a, b, n - 1);
        let e = a[n - 1] - b[n - 1];
        assert(e * e == (-e) * (-e)) by (nonlinear_arith);
    }
}

/// The squared distance of a vector to itself is zero.
pub proof fn lemma_sq_dist_self(a: Seq<i64>, n: int)
    ensures
        sq_dist_prefix(a, a, n) == 0,
    decreases n,
{
    if n > 0 {
        lemma_sq_dist_self(a, n - 1);
    }
}

/// Any dot product with the zero vector is zero.
pub proof fn lemma_dot_zero(a: Seq<i64>, z: Seq<i64>, n: int)
    requires
        n <= z.len(),
        forall|i: int| 0 <= i < z.len() ==> z[i] == 0,
    ensures
        dot_prefix(a, z, n) == 0,
        dot_prefix(z, z, n) == 0,
    decreases n,
{
    if n > 0 {
        lemma_dot_zero(a, z, n - 1);
        assert(a[n - 1] * z[n - 1] == 0) by (nonlinear_arith)
            requires z[n - 1] == 0;
    }
}

/// Cosine similarity is symmetric, and a nonzero vector has similarity
/// exactly one (`SCALE`) with itself.
pub proof fn law_cosine_symmetric_and_self(a: Seq<i64>, b: Seq<i64>)
    requires
        a.len() == b.len(),
        a.len() > 0,
    ensures
        cosine(a, b) == cosine(b, a),
        norm2(a) != 0 ==> cosine(a, a) == SCALE,
{
    lemma_dot_symmetric(a, b, a.len() as int);
    let na = norm2(a);
    let nb = norm2(b);
    assert(na * nb == nb * na) by (nonlinear_arith);
    lemma_dot_self_nonneg(a, a.len() as int);
    if na != 0 {
        lemma_sqrt_of_square(na as nat);
        assert(na * SCALE / na == SCALE) by (nonlinear_arith)
            requires na > 0;
    }
}

/// Cosine similarity with the zero vector is exactly zero.
pub proof fn law_cosine_with_zero(a: Seq<i64>, z: Seq<i64>)
    requires
        a.len() == z.len(),
        forall|i: int| 0 <= i < z.len() ==> z[i] == 0,
    ensures
        cosine(a, z) == 0,
        cosine(z, a) == 0,
{
    lemma_dot_zero(a, z, z.len() as int);
}

/// The Euclidean distance of a vector to itself is zero, and the distance is
/// symmetric.
pub proof fn law_distance_self_and_symmetric(a: Seq<i64>, b: Seq<i64>)
    requires
        a.len() == b.len(),
    ensures
        distance(a, a) == 0,
        distance(a, b) == distance(b, a),
{
    lemma_sq_dist_self(a, a.len() as int);
    lemma_sq_dist_symmetric(a, b, a.len() as int);
    lemma_sqrt_of_square(0);
}

/// The average of a single vector is that vector, and the average of a vector
/// with itself is that vector.
pub proof fn law_average_of_copies(v: Vec<i64>)
    ensures
        forall|i: int|
            0 <= i < v@.len() ==> trunc_div(column_total(seq![v], 1, i), 1) == #[trigger] v@[i],
        forall|i: int|
            0 <= i < v@.len() ==> trunc_div(column_total(seq![v, v], 2, i), 2) == #[trigger] v@[i],
{
    assert forall|i: int| 0 <= i < v@.len() implies trunc_div(
        column_total(seq![v, v], 2, i),
        2,
    ) == #[trigger] v@[i] by {
        let x = v@[i] as int;
        let vs = seq![v, v];
        assert(vs[0] == v && vs[1] == v);
        assert(column_total(vs, 0, i) == 0);
        assert(column_total(vs, 1, i) == x);
        assert(column_total(seq![v, v], 2, i) == 2 * x);
    }
    assert forall|i: int| 0 <= i < v@.len() implies trunc_div(
        column_total(seq![v], 1, i),
        1,
    ) == #[trigger] v@[i] by {
        let vs = seq![v];
        assert(vs[0] == v);
        assert(column_total(vs, 0, i) == 0);
        assert(column_total(vs, 1, i) == v@[i]);
    }
}

/// Subtracting `b` from the sum of `a` and `b` gives `a` back, with every
/// component in range.
pub proof fn law_add_then_subtract(a: Seq<i64>, b: Seq<i64>, c: Seq<i64>)
    requires
        valid(a),
        a.len() == b.len(),
        c.len() == a.len(),
        forall|i: int| 0 <= i < a.len() ==> c[i] == #[trigger] sum_at(a, b, i),
    ensures
        forall|i: int| 0 <= i < a.len() ==> #[trigger] diff_at(c, b, i) == a[i] && in_limit(
            diff_at(c, b, i),
        ),
{
    assert forall|i: int| 0 <= i < a.len() implies #[trigger] diff_at(c, b, i) == a[i] && in_limit(
        diff_at(c, b, i),
    ) by {
        assert(c[i] == sum_at(a, b, i));
        assert(in_limit(a[i] as int));
    }
}

} // verus!
