use vstd::prelude::*;

verus! {

/// Fixed-point denominator for embedding components: a stored value `v`
/// stands for the real number `v / EMBEDDING_SCALE`. A normalized
/// embedding has its squared norm close to `EMBEDDING_SCALE` squared.
pub const EMBEDDING_SCALE: i64 = 1_048_576;

/// Largest magnitude an embedding component may have (eight units of
/// [`EMBEDDING_SCALE`]), so that sums of squares stay well inside `i64`.
pub const COMPONENT_LIMIT: i64 = 8_388_608;

/// Largest number of components an embedding may have; together with
/// [`COMPONENT_LIMIT`] this keeps every sum of squares inside `i64`.
pub const MAX_EMBEDDING_LEN: usize = 16_384;

/// A face embedding vector in fixed-point form. It is raw as handed over
/// by the extractor, or normalized once it came out of
/// [`normalize_embedding`].
pub struct Embedding {
    pub components: Vec<i64>,
}

impl View for Embedding {
    type V = Seq<i64>;

    open spec fn view(&self) -> Seq<i64> {
        self.components@
    }
}

impl Embedding {
    /// Bounded length and bounded components: every arithmetic result on
    /// such a vector fits in `i64`.
    pub open spec fn wf(&self) -> bool {
        &&& self@.len() <= MAX_EMBEDDING_LEN
        &&& forall|i: int|
            0 <= i < self@.len() ==> -COMPONENT_LIMIT <= #[trigger] self@[i] <= COMPONENT_LIMIT
    }

    /// Wrap a component vector, rejecting one that is too long or holds a
    /// component out of range.
    pub fn new(components: Vec<i64>) -> (result: Option<Embedding>)
        ensures
            match result {
                Some(embedding) => embedding@ == components@ && embedding.wf(),
                None => components@.len() > MAX_EMBEDDING_LEN || exists|i: int|
                    0 <= i < components@.len() && !(-COMPONENT_LIMIT <= #[trigger] components@[i]
                        <= COMPONENT_LIMIT),
            },
    {
        if components.len() > MAX_EMBEDDING_LEN {
            return None;
        }
        let mut i: usize = 0;
        while i < components.len()
            invariant
                i <= components@.len(),
                forall|j: int|
                    0 <= j < i ==> -COMPONENT_LIMIT <= #[trigger] components@[j]
                        <= COMPONENT_LIMIT,
            decreases components@.len() - i,
        {
            if components[i] < -COMPONENT_LIMIT || components[i] > COMPONENT_LIMIT {
                return None;
            }
            i = i + 1;
        }
        Some(Embedding { components })
    }
}

/// The sum of the squares of a vector's components.
pub open spec fn spec_sum_squares(s: Seq<i64>) -> int
    decreases s.len(),
{
    if s.len() == 0 {
        0
    } else {
        spec_sum_squares(s.drop_last()) + s.last() * s.last()
    }
}

proof fn lemma_square_bounds(c: int, limit: int)
    by (nonlinear_arith)
    requires
        -limit <= c <= limit,
    ensures
        0 <= c * c <= limit * limit,
{
}

/// A sum of squares is never negative.
pub proof fn lemma_sum_squares_nonneg(s: Seq<i64>)
    ensures
        spec_sum_squares(s) >= 0,
    decreases s.len(),
{
    if s.len() > 0 {
        lemma_sum_squares_nonneg(s.drop_last());
        assert(s.last() * s.last() >= 0) by (nonlinear_arith);
    }
}

/// Each single squared component is at most the whole sum of squares.
proof fn lemma_component_square_le_sum(s: Seq<i64>, i: int)
    requires
        0 <= i < s.len(),
    ensures
        s[i] * s[i] <= spec_sum_squares(s),
    decreases s.len(),
{
    lemma_sum_squares_nonneg(s.drop_last());
    assert(s.last() * s.last() >= 0) by (nonlinear_arith);
    if i < s.len() - 1 {
        lemma_component_square_le_sum(s.drop_last(), i);
    }
}

/// Sum the squared components of an embedding.
pub fn norm_squared(embedding: &Embedding) -> (sum: i64)
    requires
        embedding.wf(),
    ensures
        sum == spec_sum_squares(embedding@),
        0 <= sum <= MAX_EMBEDDING_LEN * COMPONENT_LIMIT * COMPONENT_LIMIT,
{
    let mut sum: i64 = 0;
    let mut i: usize = 0;
    while i < embedding.components.len()
        invariant
            embedding.wf(),
            i <= embedding@.len(),
            sum == spec_sum_squares(embedding@.subrange(0, i as int)),
            0 <= sum <= i * COMPONENT_LIMIT * COMPONENT_LIMIT,
        decreases embedding@.len() - i,
    {
        let c = embedding.components[i];
        proof {
            lemma_square_bounds(c as int, COMPONENT_LIMIT as int);
            assert(i * COMPONENT_LIMIT * COMPONENT_LIMIT + COMPONENT_LIMIT * COMPONENT_LIMIT == (i
                + 1) * COMPONENT_LIMIT * COMPONENT_LIMIT)
                by (nonlinear_arith);
            assert((i + 1) * COMPONENT_LIMIT * COMPONENT_LIMIT <= MAX_EMBEDDING_LEN
                * COMPONENT_LIMIT * COMPONENT_LIMIT)
                by (nonlinear_arith)
                requires
                    i + 1 <= MAX_EMBEDDING_LEN;
            assert(embedding@.subrange(0, i + 1).drop_last() =~= embedding@.subrange(0, i as int));
        }
        sum = sum + c * c;
        i = i + 1;
    }
    proof {
        assert(embedding@.subrange(0, embedding@.len() as int) =~= embedding@);
    }
    sum
}

/// `r` is the integer square root of `n`: the greatest integer whose
/// square does not exceed `n`.
pub open spec fn is_int_sqrt(n: int, r: int) -> bool {
    &&& 0 <= r
    &&& r * r <= n
    &&& n < (r + 1) * (r + 1)
}

/// The integer square root of a non-negative integer.
pub open spec fn spec_int_sqrt(n: int) -> int {
    choose|r: int| is_int_sqrt(n, r)
}

/// Every non-negative integer has an integer square root, and
/// [`spec_int_sqrt`] denotes it.
pub proof fn lemma_int_sqrt_exists(n: int)
    requires
        n >= 0,
    ensures
        is_int_sqrt(n, spec_int_sqrt(n)),
    decreases n,
{
    if n == 0 {
        assert(is_int_sqrt(0, 0));
    } else {
        lemma_int_sqrt_exists(n - 1);
        let r = spec_int_sqrt(n - 1);
        if (r + 1) * (r + 1) <= n {
            assert(is_int_sqrt(n, r + 1)) by (nonlinear_arith)
                requires
                    is_int_sqrt(n - 1, r),
                    (r + 1) * (r + 1) <= n;
        } else {
            assert(is_int_sqrt(n, r));
        }
    }
}

/// No integer but one satisfies the square-root property for a given `n`.
pub proof fn lemma_int_sqrt_unique(n: int, r1: int, r2: int)
    by (nonlinear_arith)
    requires
        is_int_sqrt(n, r1),
        is_int_sqrt(n, r2),
    ensures
        r1 == r2,
{
}

/// Binary-search integer square root.
pub fn isqrt(n: i64) -> (root: i64)
    requires
        0 <= n < 0x4000_0000_0000_0000,
    ensures
        root == spec_int_sqrt(n as int),
        is_int_sqrt(n as int, root as int),
{
    let mut lo: i64 = 0;
    let mut hi: i64 = 0x8000_0000;
    proof {
        assert((0x8000_0000i64 as int) * (0x8000_0000i64 as int) == 0x4000_0000_0000_0000)
            by (nonlinear_arith);
    }
    while lo + 1 < hi
        invariant
            0 <= lo < hi <= 0x8000_0000,
            lo * lo <= n,
            n < hi * hi,
        decreases hi - lo,
    {
        let mid = lo + (hi - lo) / 2;
        assert(lo < mid < hi);
        assert(mid * mid <= 0x4000_0000_0000_0000) by (nonlinear_arith)
            requires
                0 < mid <= 0x8000_0000;
        if mid * mid <= n {
            lo = mid;
        } else {
            hi = mid;
        }
    }
    proof {
        assert(is_int_sqrt(n as int, lo as int));
        lemma_int_sqrt_exists(n as int);
        lemma_int_sqrt_unique(n as int, lo as int, spec_int_sqrt(n as int));
    }
    lo
}

/// The fixed-point component `c / norm * EMBEDDING_SCALE`, rounded toward
/// zero.
pub open spec fn spec_normalized_component(c: int, norm: int) -> int {
    if c >= 0 {
        (c * EMBEDDING_SCALE) / norm
    } else {
        -((-c * EMBEDDING_SCALE) / norm)
    }
}

proof fn lemma_div_le_num(num: int, den: int)
    by (nonlinear_arith)
    requires
        0 <= num,
        1 <= den,
    ensures
        0 <= num / den <= num,
{
}

proof fn lemma_div_bound(num: int, den: int, bound: int)
    by (nonlinear_arith)
    requires
        0 <= num,
        1 <= den,
        0 <= bound,
        num <= den * bound,
    ensures
        num / den <= bound,
{
}

/// Divide every component by the vector's L2 norm, in fixed point: the
/// result component `i` is `v[i] * EMBEDDING_SCALE / norm` rounded toward
/// zero, where `norm` is the integer square root of the sum of squares.
/// An all-zero vector has no direction, and comes back as `None` instead
/// of the non-finite values a floating-point division would produce.
pub fn normalize_embedding(embedding: &Embedding) -> (result: Option<Embedding>)
    requires
        embedding.wf(),
    ensures
        match result {
            Some(normalized) => {
                &&& spec_sum_squares(embedding@) > 0
                &&& normalized@.len() == embedding@.len()
                &&& forall|i: int|
                    0 <= i < embedding@.len() ==> #[trigger] normalized@[i]
                        == spec_normalized_component(
                        embedding@[i] as int,
                        spec_int_sqrt(spec_sum_squares(embedding@)),
                    )
                &&& forall|i: int|
                    0 <= i < normalized@.len() ==> -EMBEDDING_SCALE <= #[trigger] normalized@[i]
                        <= EMBEDDING_SCALE
                &&& normalized.wf()
            },
            None => spec_sum_squares(embedding@) == 0,
        },
{
    let sum = norm_squared(embedding);
    if sum == 0 {
        return None;
    }
    let norm = isqrt(sum);
    proof {
        assert(norm >= 1) by {
            if norm < 1 {
                assert((norm + 1) * (norm + 1) <= 1) by (nonlinear_arith)
                    requires
                        0 <= norm < 1;
            }
        }
    }
    let mut components: Vec<i64> = Vec::new();
    let mut i: usize = 0;
    while i < embedding.components.len()
        invariant
            embedding.wf(),
            i <= embedding@.len(),
            1 <= norm,
            is_int_sqrt(spec_sum_squares(embedding@), norm as int),
            norm == spec_int_sqrt(spec_sum_squares(embedding@)),
            components@.len() == i,
            forall|j: int|
                0 <= j < i ==> #[trigger] components@[j] == spec_normalized_component(
                    embedding@[j] as int,
                    norm as int,
                ),
            forall|j: int|
                0 <= j < i ==> -EMBEDDING_SCALE <= #[trigger] components@[j] <= EMBEDDING_SCALE,
        decreases embedding@.len() - i,
    {
        let c = embedding.components[i];
        proof {
            lemma_component_square_le_sum(embedding@, i as int);
            assert(-norm <= c <= norm) by (nonlinear_arith)
                requires
                    c * c <= spec_sum_squares(embedding@),
                    is_int_sqrt(spec_sum_squares(embedding@), norm as int);
        }
        let magnitude = if c >= 0 {
            c
        } else {
            -c
        };
        assert(0 <= magnitude <= norm);
        let scaled = magnitude * EMBEDDING_SCALE;
        proof {
            assert(scaled <= norm * EMBEDDING_SCALE) by (nonlinear_arith)
                requires
                    0 <= magnitude <= norm,
                    scaled == magnitude * EMBEDDING_SCALE;
            lemma_div_le_num(scaled as int, norm as int);
            lemma_div_bound(scaled as int, norm as int, EMBEDDING_SCALE as int);
        }
        let quotient = scaled / norm;
        let value = if c >= 0 {
            quotient
        } else {
            -quotient
        };
        components.push(value);
        i = i + 1;
    }
    Some(Embedding { components })
}

proof fn lemma_normalized_component_square_bounds(c: int, n: int, t: int)
    requires
        1 <= n,
        -n <= c <= n,
        t == spec_normalized_component(c, n),
    ensures
        n * n * (t * t) <= (EMBEDDING_SCALE * EMBEDDING_SCALE) * (c * c),
        n * n * (t * t) >= (EMBEDDING_SCALE * EMBEDDING_SCALE) * (c * c) - 2 * n * n
            * EMBEDDING_SCALE,
{
    let s = EMBEDDING_SCALE as int;
    let magnitude = if c >= 0 {
        c
    } else {
        -c
    };
    let a = magnitude * s;
    let q = a / n;
    assert(t == q || t == -q);
    assert(t * t == q * q) by (nonlinear_arith)
        requires
            t == q || t == -q;
    assert(0 <= a <= n * s) by (nonlinear_arith)
        requires
            0 <= magnitude <= n,
            a == magnitude * s,
            s >= 1;
    assert(a * a == (s * s) * (c * c)) by (nonlinear_arith)
        requires
            a == magnitude * s,
            magnitude == c || magnitude == -c;
    assert(n * q <= a && a < n * q + n && q >= 0) by (nonlinear_arith)
        requires
            q == a / n,
            a >= 0,
            n >= 1;
    assert(n * n * (q * q) <= a * a) by (nonlinear_arith)
        requires
            0 <= n * q <= a;
    assert(n * n * (q * q) >= a * a - 2 * n * a) by (nonlinear_arith)
        requires
            a < n * q + n,
            q >= 0,
            n >= 1,
            a >= 0;
    assert(2 * n * a <= 2 * n * n * s) by (nonlinear_arith)
        requires
            0 <= a <= n * s,
            n >= 1,
            s >= 1;
}

proof fn lemma_normalized_sum_squares_bounds(s: Seq<i64>, t: Seq<i64>, n: int)
    requires
        s.len() == t.len(),
        1 <= n,
        forall|i: int| 0 <= i < s.len() ==> -n <= #[trigger] s[i] <= n,
        forall|i: int|
            0 <= i < t.len() ==> #[trigger] t[i] == spec_normalized_component(s[i] as int, n),
    ensures
        n * n * spec_sum_squares(t) <= (EMBEDDING_SCALE * EMBEDDING_SCALE) * spec_sum_squares(s),
        n * n * spec_sum_squares(t) >= (EMBEDDING_SCALE * EMBEDDING_SCALE) * spec_sum_squares(s)
            - s.len() * (2 * n * n * EMBEDDING_SCALE),
    decreases s.len(),
{
    if s.len() == 0 {
    } else {
        lemma_normalized_sum_squares_bounds(s.drop_last(), t.drop_last(), n);
        lemma_normalized_component_square_bounds(s.last() as int, n, t.last() as int);
        let es = EMBEDDING_SCALE as int;
        let prev_s = spec_sum_squares(s.drop_last());
        let prev_t = spec_sum_squares(t.drop_last());
        let cc = s.last() * s.last();
        let tt = t.last() * t.last();
        assert(n * n * (prev_t + tt) == n * n * prev_t + n * n * tt) by (nonlinear_arith);
        assert((es * es) * (prev_s + cc) == (es * es) * prev_s + (es * es) * cc)
            by (nonlinear_arith);
        assert((s.len() - 1) * (2 * n * n * es) + 2 * n * n * es == s.len() * (2 * n * n * es))
            by (nonlinear_arith);
    }
}

/// The squared norm of a normalized embedding is `EMBEDDING_SCALE`
/// squared, up to an explicit rounding slack: rounding each of the `len`
/// components toward zero loses at most `2 * EMBEDDING_SCALE` per
/// component below the exact square, and the exact square itself
/// overshoots only because the integer square root `n` of the input's sum
/// of squares `sum` undershoots `sqrt(sum)`, which the upper bound states
/// as `n^2 * norm^2 <= EMBEDDING_SCALE^2 * sum` with `sum < (n+1)^2`.
pub proof fn lemma_normalized_norm_near_unit(v: Seq<i64>, t: Seq<i64>)
    requires
        spec_sum_squares(v) > 0,
        t.len() == v.len(),
        forall|i: int|
            0 <= i < t.len() ==> #[trigger] t[i] == spec_normalized_component(
                v[i] as int,
                spec_int_sqrt(spec_sum_squares(v)),
            ),
    ensures
        spec_sum_squares(t) >= EMBEDDING_SCALE * EMBEDDING_SCALE - v.len() * (2 * EMBEDDING_SCALE),
        spec_int_sqrt(spec_sum_squares(v)) * spec_int_sqrt(spec_sum_squares(v))
            * spec_sum_squares(t) <= (EMBEDDING_SCALE * EMBEDDING_SCALE) * spec_sum_squares(v),
        spec_sum_squares(v) < (spec_int_sqrt(spec_sum_squares(v)) + 1) * (spec_int_sqrt(
            spec_sum_squares(v),
        ) + 1),
{
    let es = EMBEDDING_SCALE as int;
    let sum = spec_sum_squares(v);
    lemma_int_sqrt_exists(sum);
    let n = spec_int_sqrt(sum);
    assert(n >= 1) by (nonlinear_arith)
        requires
            is_int_sqrt(sum, n),
            sum >= 1;
    assert forall|i: int| 0 <= i < v.len() implies -n <= #[trigger] v[i] <= n by {
        lemma_component_square_le_sum(v, i);
        assert(-n <= v[i] <= n) by (nonlinear_arith)
            requires
                v[i] * v[i] <= sum,
                is_int_sqrt(sum, n);
    }
    lemma_normalized_sum_squares_bounds(v, t, n);
    assert(sum >= n * n);
    assert((es * es) * sum >= (es * es) * (n * n)) by (nonlinear_arith)
        requires
            sum >= n * n,
            es >= 1;
    assert(v.len() * (2 * n * n * es) == n * n * (v.len() * (2 * es))) by (nonlinear_arith);
    assert((es * es) * (n * n) == n * n * (es * es)) by (nonlinear_arith);
    assert(n * n * spec_sum_squares(t) >= n * n * (es * es) - n * n * (v.len() * (2 * es)))
        by (nonlinear_arith)
        requires
            n * n * spec_sum_squares(t) >= (es * es) * sum - v.len() * (2 * n * n * es),
            (es * es) * sum >= n * n * (es * es),
            v.len() * (2 * n * n * es) == n * n * (v.len() * (2 * es));
    assert(spec_sum_squares(t) >= es * es - v.len() * (2 * es)) by (nonlinear_arith)
        requires
            n * n * spec_sum_squares(t) >= n * n * (es * es) - n * n * (v.len() * (2 * es)),
            n >= 1;
}

/// The squared Euclidean distance between two equal-length vectors.
pub open spec fn spec_sq_dist(a: Seq<i64>, b: Seq<i64>) -> int
    decreases a.len(),
{
    if a.len() == 0 {
        0
    } else {
        spec_sq_dist(a.drop_last(), b.drop_last()) + (a.last() - b.last()) * (a.last() - b.last())
    }
}

/// A squared distance is never negative.
pub proof fn lemma_sq_dist_nonneg(a: Seq<i64>, b: Seq<i64>)
    ensures
        spec_sq_dist(a, b) >= 0,
    decreases a.len(),
{
    if a.len() > 0 {
        lemma_sq_dist_nonneg(a.drop_last(), b.drop_last());
        let d = a.last() - b.last();
        assert(d * d >= 0) by (nonlinear_arith);
    }
}

/// The distance from any vector to itself is exactly zero.
pub proof fn lemma_sq_dist_self_zero(v: Seq<i64>)
    ensures
        spec_sq_dist(v, v) == 0,
    decreases v.len(),
{
    if v.len() > 0 {
        lemma_sq_dist_self_zero(v.drop_last());
    }
}

/// Distance does not depend on the order of its arguments.
pub proof fn lemma_sq_dist_symmetric(a: Seq<i64>, b: Seq<i64>)
    requires
        a.len() == b.len(),
    ensures
        spec_sq_dist(a, b) == spec_sq_dist(b, a),
    decreases a.len(),
{
    if a.len() > 0 {
        lemma_sq_dist_symmetric(a.drop_last(), b.drop_last());
        let d = a.last() - b.last();
        let e = b.last() - a.last();
        assert(d * d == e * e) by (nonlinear_arith)
            requires
                d == -e;
    }
}

/// No two bounded vectors are farther apart than the worst case of one
/// maximal and one minimal component in every position.
pub proof fn lemma_sq_dist_bound(a: Seq<i64>, b: Seq<i64>)
    requires
        a.len() == b.len(),
        a.len() <= MAX_EMBEDDING_LEN,
        forall|i: int|
            0 <= i < a.len() ==> -COMPONENT_LIMIT <= #[trigger] a[i] <= COMPONENT_LIMIT,
        forall|i: int|
            0 <= i < b.len() ==> -COMPONENT_LIMIT <= #[trigger] b[i] <= COMPONENT_LIMIT,
    ensures
        0 <= spec_sq_dist(a, b) <= a.len() * (4 * COMPONENT_LIMIT * COMPONENT_LIMIT),
        spec_sq_dist(a, b) <= MAX_EMBEDDING_LEN * (4 * COMPONENT_LIMIT * COMPONENT_LIMIT),
    decreases a.len(),
{
    if a.len() == 0 {
    } else {
        lemma_sq_dist_bound(a.drop_last(), b.drop_last());
        let d = a.last() - b.last();
        lemma_square_bounds(d, 2 * COMPONENT_LIMIT as int);
        assert(2 * COMPONENT_LIMIT * (2 * COMPONENT_LIMIT) == 4 * COMPONENT_LIMIT
            * COMPONENT_LIMIT) by (nonlinear_arith);
        assert((a.len() - 1) * (4 * COMPONENT_LIMIT * COMPONENT_LIMIT) + 4 * COMPONENT_LIMIT
            * COMPONENT_LIMIT == a.len() * (4 * COMPONENT_LIMIT * COMPONENT_LIMIT))
            by (nonlinear_arith)
            requires
                a.len() >= 1;
    }
    assert(a.len() * (4 * COMPONENT_LIMIT * COMPONENT_LIMIT) <= MAX_EMBEDDING_LEN * (4
        * COMPONENT_LIMIT * COMPONENT_LIMIT))
        by (nonlinear_arith)
        requires
            a.len() <= MAX_EMBEDDING_LEN;
}

/// The squared Euclidean distance between two embeddings of the same
/// length, summed component by component in exact arithmetic.
pub fn calculate_distance(a: &Embedding, b: &Embedding) -> (distance: i64)
    requires
        a.wf(),
        b.wf(),
        a@.len() == b@.len(),
    ensures
        distance == spec_sq_dist(a@, b@),
        0 <= distance <= MAX_EMBEDDING_LEN * (4 * COMPONENT_LIMIT * COMPONENT_LIMIT),
{
    let mut distance: i64 = 0;
    let mut i: usize = 0;
    while i < a.components.len()
        invariant
            a.wf(),
            b.wf(),
            a@.len() == b@.len(),
            i <= a@.len(),
            distance == spec_sq_dist(a@.subrange(0, i as int), b@.subrange(0, i as int)),
            0 <= distance <= i * (4 * COMPONENT_LIMIT * COMPONENT_LIMIT),
        decreases a@.len() - i,
    {
        let diff = a.components[i] - b.components[i];
        proof {
            lemma_square_bounds(diff as int, 2 * COMPONENT_LIMIT as int);
            assert(2 * COMPONENT_LIMIT * (2 * COMPONENT_LIMIT) == 4 * COMPONENT_LIMIT
                * COMPONENT_LIMIT) by (nonlinear_arith);
            assert(i * (4 * COMPONENT_LIMIT * COMPONENT_LIMIT) + 4 * COMPONENT_LIMIT
                * COMPONENT_LIMIT == (i + 1) * (4 * COMPONENT_LIMIT * COMPONENT_LIMIT))
                by (nonlinear_arith);
            assert((i + 1) * (4 * COMPONENT_LIMIT * COMPONENT_LIMIT) <= MAX_EMBEDDING_LEN * (4
                * COMPONENT_LIMIT * COMPONENT_LIMIT))
                by (nonlinear_arith)
                requires
                    i + 1 <= MAX_EMBEDDING_LEN;
            assert(a@.subrange(0, i + 1).drop_last() =~= a@.subrange(0, i as int));
            assert(b@.subrange(0, i + 1).drop_last() =~= b@.subrange(0, i as int));
        }
        distance = distance + diff * diff;
        i = i + 1;
    }
    proof {
        assert(a@.subrange(0, a@.len() as int) =~= a@);
        assert(b@.subrange(0, b@.len() as int) =~= b@);
        assert(a@.len() * (4 * COMPONENT_LIMIT * COMPONENT_LIMIT) <= MAX_EMBEDDING_LEN * (4
            * COMPONENT_LIMIT * COMPONENT_LIMIT))
            by (nonlinear_arith)
            requires
                a@.len() <= MAX_EMBEDDING_LEN;
    }
    distance
}

} // verus!
