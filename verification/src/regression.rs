use vstd::prelude::*;

verus! {

/// The largest number of samples that `fit` takes: with it every sum of the
/// closed form stays inside `i128`.
pub const MAX_SAMPLES: usize = 65536;

/// A fitted line in exact arithmetic: its slope is `slope_num / denom`, its
/// intercept `intercept_num / denom`, and `denom` is positive.
#[derive(Clone, Copy, Debug, PartialEq, Eq, Structural)]
pub struct Line {
    pub slope_num: i128,
    pub intercept_num: i128,
    pub denom: i128,
}

/// Why no line was fitted.
#[derive(Clone, Copy, Debug, PartialEq, Eq, Structural)]
pub enum FitError {
    /// There are not as many `ys` as `xs`.
    LengthMismatch,
    /// Fewer than two samples.
    TooFewSamples,
    /// More than `MAX_SAMPLES` samples.
    TooManySamples,
    /// All `xs` are the same value, so no slope is defined.
    ConstantX,
}

/// The sum of the values.
pub open spec fn sum(s: Seq<i32>) -> int
    decreases s.len(),
{
    if s.len() == 0 {
        0
    } else {
        sum(s.drop_last()) + s.last()
    }
}

/// The sum of the products of the values in the same places.
pub open spec fn dot(s: Seq<i32>, t: Seq<i32>) -> int
    decreases s.len(),
{
    if s.len() == 0 || t.len() == 0 {
        0
    } else {
        dot(s.drop_last(), t.drop_last()) + s.last() * t.last()
    }
}

/// The denominator of the closed form: `n * sum(x * x) - sum(x) * sum(x)`.
pub open spec fn spread(xs: Seq<i32>) -> int {
    xs.len() * dot(xs, xs) - sum(xs) * sum(xs)
}

/// The numerator of the slope: `n * sum(x * y) - sum(x) * sum(y)`.
pub open spec fn slope_numerator(xs: Seq<i32>, ys: Seq<i32>) -> int {
    xs.len() * dot(xs, ys) - sum(xs) * sum(ys)
}

/// The numerator of the intercept over the same denominator:
/// `sum(x * x) * sum(y) - sum(x) * sum(x * y)`.
pub open spec fn intercept_numerator(xs: Seq<i32>, ys: Seq<i32>) -> int {
    dot(xs, xs) * sum(ys) - sum(xs) * dot(xs, ys)
}

/// All the values are one and the same.
pub open spec fn all_equal(xs: Seq<i32>) -> bool {
    forall|i: int, j: int| 0 <= i < xs.len() && 0 <= j < xs.len() ==> xs[i] == xs[j]
}

/// What `fit` answers.
pub open spec fn fitted(xs: Seq<i32>, ys: Seq<i32>) -> Result<Line, FitError> {
    if xs.len() != ys.len() {
        Err(FitError::LengthMismatch)
    } else if xs.len() < 2 {
        Err(FitError::TooFewSamples)
    } else if xs.len() > MAX_SAMPLES {
        Err(FitError::TooManySamples)
    } else if all_equal(xs) {
        Err(FitError::ConstantX)
    } else {
        Ok(
            Line {
                slope_num: slope_numerator(xs, ys) as i128,
                intercept_num: intercept_numerator(xs, ys) as i128,
                denom: spread(xs) as i128,
            },
        )
    }
}

/// The sum of the squared distances of the values from `x`.
pub open spec fn squared_distance(s: Seq<i32>, x: int) -> int
    decreases s.len(),
{
    if s.len() == 0 {
        0
    } else {
        squared_distance(s.drop_last(), x) + (s.last() - x) * (s.last() - x)
    }
}

proof fn lemma_squared_distance(s: Seq<i32>, x: int)
    ensures
        squared_distance(s, x) == dot(s, s) - 2 * x * sum(s) + s.len() * x * x,
        squared_distance(s, x) >= 0,
        squared_distance(s, x) == 0 <==> forall|i: int| 0 <= i < s.len() ==> s[i] == x,
    decreases s.len(),
{
    if s.len() == 0 {
    } else {
        let rest = s.drop_last();
        let v = s.last() as int;
        lemma_squared_distance(rest, x);
        let q = dot(rest, rest);
        let t = sum(rest);
        let m = rest.len() as int;
        assert(q - 2 * x * t + m * x * x + (v - x) * (v - x) == (q + v * v) - 2 * x * (t + v) + (m
            + 1) * x * x) by (nonlinear_arith);
        assert((v - x) * (v - x) >= 0) by (nonlinear_arith);
        assert((v - x) * (v - x) == 0 <==> v == x) by (nonlinear_arith);
        if squared_distance(s, x) == 0 {
            assert forall|i: int| 0 <= i < s.len() implies s[i] == x by {
                if i < rest.len() {
                    assert(rest[i] == s[i]);
                }
            }
        }
        if forall|i: int| 0 <= i < s.len() ==> s[i] == x {
            assert forall|i: int| 0 <= i < rest.len() implies rest[i] == x by {
                assert(rest[i] == s[i]);
            }
            assert(s[s.len() - 1] == x);
        }
    }
}

/// The denominator of the closed form is never negative, and it is zero
/// exactly when all the values are the same.
pub proof fn lemma_spread(xs: Seq<i32>)
    ensures
        spread(xs) >= 0,
        spread(xs) == 0 <==> all_equal(xs),
    decreases xs.len(),
{
    if xs.len() == 0 {
    } else {
        let rest = xs.drop_last();
        let v = xs.last() as int;
        lemma_spread(rest);
        lemma_squared_distance(rest, v);
        let q = dot(rest, rest);
        let t = sum(rest);
        let m = rest.len() as int;
        assert((m + 1) * (q + v * v) - (t + v) * (t + v) == (m * q - t * t) + (q - 2 * v * t + m
            * v * v)) by (nonlinear_arith);
        assert(spread(xs) == spread(rest) + squared_distance(rest, v));
        if spread(xs) == 0 {
            assert forall|i: int, j: int| 0 <= i < xs.len() && 0 <= j < xs.len() implies xs[i]
                == xs[j] by {
                if i < rest.len() {
                    assert(rest[i] == xs[i]);
                }
                if j < rest.len() {
                    assert(rest[j] == xs[j]);
                }
            }
        }
        if all_equal(xs) {
            assert forall|i: int, j: int| 0 <= i < rest.len() && 0 <= j < rest.len() implies rest[i]
                == rest[j] by {
                assert(rest[i] == xs[i] && rest[j] == xs[j]);
            }
            assert forall|i: int| 0 <= i < rest.len() implies rest[i] == v by {
                assert(rest[i] == xs[i] && xs[xs.len() - 1] == v);
            }
        }
    }
}

/// Samples that lie on the line `y = a * x + b` are fitted by that line: the
/// slope is `a` and the intercept is `b`.
pub proof fn lemma_fit_collinear(xs: Seq<i32>, ys: Seq<i32>, a: int, b: int)
    requires
        xs.len() == ys.len(),
        forall|i: int| 0 <= i < xs.len() ==> ys[i] == a * xs[i] + b,
    ensures
        slope_numerator(xs, ys) == a * spread(xs),
        intercept_numerator(xs, ys) == b * spread(xs),
{
    lemma_collinear_sums(xs, ys, a, b);
    let n = xs.len() as int;
    let q = dot(xs, xs);
    let s = sum(xs);
    assert(n * (a * q + b * s) - s * (a * s + n * b) == a * (n * q - s * s)) by (nonlinear_arith);
    assert(q * (a * s + n * b) - s * (a * q + b * s) == b * (n * q - s * s)) by (nonlinear_arith);
}

proof fn lemma_collinear_sums(xs: Seq<i32>, ys: Seq<i32>, a: int, b: int)
    requires
        xs.len() == ys.len(),
        forall|i: int| 0 <= i < xs.len() ==> ys[i] == a * xs[i] + b,
    ensures
        sum(ys) == a * sum(xs) + xs.len() * b,
        dot(xs, ys) == a * dot(xs, xs) + b * sum(xs),
    decreases xs.len(),
{
    if xs.len() == 0 {
    } else {
        let rx = xs.drop_last();
        let ry = ys.drop_last();
        assert forall|i: int| 0 <= i < rx.len() implies ry[i] == a * rx[i] + b by {
            assert(rx[i] == xs[i] && ry[i] == ys[i]);
        }
        lemma_collinear_sums(rx, ry, a, b);
        let x = xs.last() as int;
        let y = ys.last() as int;
        assert(y == a * x + b);
        let m = rx.len() as int;
        let s = sum(rx);
        let q = dot(rx, rx);
        assert(a * s + m * b + (a * x + b) == a * (s + x) + (m + 1) * b) by (nonlinear_arith);
        assert(a * q + b * s + x * (a * x + b) == a * (q + x * x) + b * (s + x))
            by (nonlinear_arith);
    }
}

/// A product is bounded by the product of the bounds of its factors.
proof fn lemma_product_bound(a: int, b: int, bound_a: int, bound_b: int)
    requires
        -bound_a <= a <= bound_a,
        -bound_b <= b <= bound_b,
    ensures
        -(bound_a * bound_b) <= a * b <= bound_a * bound_b,
{
    assert(-(bound_a * bound_b) <= a * b <= bound_a * bound_b) by (nonlinear_arith)
        requires
            -bound_a <= a <= bound_a,
            -bound_b <= b <= bound_b,
    ;
}

/// The sums of the closed form over the first `k` samples stay within `k`
/// times the bounds of their terms.
proof fn lemma_sums_bounded(xs: Seq<i32>, ys: Seq<i32>, k: int)
    requires
        0 <= k <= xs.len(),
        xs.len() == ys.len(),
    ensures
        -(k * 0x8000_0000) <= sum(xs.take(k)) <= k * 0x8000_0000,
        -(k * 0x8000_0000) <= sum(ys.take(k)) <= k * 0x8000_0000,
        0 <= dot(xs.take(k), xs.take(k)) <= k * 0x4000_0000_0000_0000,
        -(k * 0x4000_0000_0000_0000) <= dot(xs.take(k), ys.take(k)) <= k
            * 0x4000_0000_0000_0000,
    decreases k,
{
    if k > 0 {
        lemma_sums_bounded(xs, ys, k - 1);
        assert(xs.take(k).drop_last() =~= xs.take(k - 1));
        assert(ys.take(k).drop_last() =~= ys.take(k - 1));
        let x = xs[k - 1] as int;
        let y = ys[k - 1] as int;
        assert(xs.take(k).last() == x && ys.take(k).last() == y);
        lemma_product_bound(x, x, 0x8000_0000, 0x8000_0000);
        lemma_product_bound(x, y, 0x8000_0000, 0x8000_0000);
        assert(x * x >= 0) by (nonlinear_arith);
    }
}

/// Fits a line through the samples `(xs[i], ys[i])` by ordinary least squares,
/// in exact arithmetic.
pub fn fit(xs: &[i32], ys: &[i32]) -> (r: Result<Line, FitError>)
    ensures
        r == fitted(xs@, ys@),
        r matches Ok(line) ==> line.denom > 0 && line.denom == spread(xs@) && line.slope_num
            == slope_numerator(xs@, ys@) && line.intercept_num == intercept_numerator(xs@, ys@),
{
    let n = xs.len();
    if n != ys.len() {
        return Err(FitError::LengthMismatch);
    }
    if n < 2 {
        return Err(FitError::TooFewSamples);
    }
    if n > MAX_SAMPLES {
        return Err(FitError::TooManySamples);
    }
    let mut sum_x: i128 = 0;
    let mut sum_y: i128 = 0;
    let mut sum_xx: i128 = 0;
    let mut sum_xy: i128 = 0;
    let mut i: usize = 0;
    while i < n
        invariant
            i <= n,
            n == xs.len(),
            n == ys.len(),
            n <= MAX_SAMPLES,
            sum_x == sum(xs@.take(i as int)),
            sum_y == sum(ys@.take(i as int)),
            sum_xx == dot(xs@.take(i as int), xs@.take(i as int)),
            sum_xy == dot(xs@.take(i as int), ys@.take(i as int)),
        decreases n - i,
    {
        let x = xs[i] as i128;
        let y = ys[i] as i128;
        proof {
            lemma_sums_bounded(xs@, ys@, i as int);
            lemma_sums_bounded(xs@, ys@, i + 1);
            assert(xs@.take(i + 1).drop_last() =~= xs@.take(i as int));
            assert(ys@.take(i + 1).drop_last() =~= ys@.take(i as int));
            assert(xs@.take(i + 1).last() == x && ys@.take(i + 1).last() == y);
            lemma_product_bound(x as int, x as int, 0x8000_0000, 0x8000_0000);
            lemma_product_bound(x as int, y as int, 0x8000_0000, 0x8000_0000);
        }
        sum_x = sum_x + x;
        sum_y = sum_y + y;
        sum_xx = sum_xx + x * x;
        sum_xy = sum_xy + x * y;
        i += 1;
    }
    let count = n as i128;
    proof {
        assert(xs@.take(n as int) =~= xs@);
        assert(ys@.take(n as int) =~= ys@);
        lemma_sums_bounded(xs@, ys@, n as int);
        lemma_spread(xs@);
        let far: int = 0x8000_0000_0000;
        let wide: int = 0x4000_0000_0000_0000_0000;
        lemma_product_bound(count as int, sum_xx as int, 0x1_0000, wide);
        lemma_product_bound(count as int, sum_xy as int, 0x1_0000, wide);
        lemma_product_bound(sum_x as int, sum_x as int, far, far);
        lemma_product_bound(sum_x as int, sum_y as int, far, far);
        lemma_product_bound(sum_xx as int, sum_y as int, wide, far);
        lemma_product_bound(sum_x as int, sum_xy as int, far, wide);
    }
    let denom = count * sum_xx - sum_x * sum_x;
    if denom == 0 {
        return Err(FitError::ConstantX);
    }
    Ok(
        Line {
            slope_num: count * sum_xy - sum_x * sum_y,
            intercept_num: sum_xx * sum_y - sum_x * sum_xy,
            denom,
        },
    )
}

} // verus!
