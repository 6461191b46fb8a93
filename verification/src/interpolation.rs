use vstd::prelude::*;
use vstd::arithmetic::div_mod::*;
use vstd::arithmetic::power::*;
use crate::arith::eval;
use crate::arith::inv_mod;
use crate::arith::is_prime;
use crate::arith::lemma_mul_by_unit;
use crate::arith::lemma_mul_mod_both;
use crate::fermat::lemma_cancel;
use crate::fermat::lemma_inverse;
use crate::lagrange::has_collision;
use crate::lagrange::interpolate;
use crate::lagrange::weight;
use crate::lagrange::weight_factor;
use crate::lagrange::weight_upto;

verus! {

/// The sum of `f(0), f(1), ..., f(k - 1)`.
pub open spec fn sum_to(f: spec_fn(int) -> int, k: nat) -> int
    decreases k,
{
    if k == 0 {
        0
    } else {
        sum_to(f, (k - 1) as nat) + f(k - 1)
    }
}

/// Sums of termwise congruent summands are congruent.
pub proof fn lemma_sum_congruent(f: spec_fn(int) -> int, g: spec_fn(int) -> int, k: nat, m: int)
    requires
        m > 0,
        forall|i: int| 0 <= i < k ==> #[trigger] f(i) % m == g(i) % m,
    ensures
        sum_to(f, k) % m == sum_to(g, k) % m,
    decreases k,
{
    if k > 0 {
        lemma_sum_congruent(f, g, (k - 1) as nat, m);
        lemma_add_mod_noop(sum_to(f, (k - 1) as nat), f(k - 1), m);
        lemma_add_mod_noop(sum_to(g, (k - 1) as nat), g(k - 1), m);
    }
}

/// A common factor may be taken out of a sum.
pub proof fn lemma_sum_scaled(f: spec_fn(int) -> int, g: spec_fn(int) -> int, a: int, k: nat)
    requires
        forall|i: int| 0 <= i < k ==> #[trigger] g(i) == a * f(i),
    ensures
        sum_to(g, k) == a * sum_to(f, k),
    decreases k,
{
    if k > 0 {
        lemma_sum_scaled(f, g, a, (k - 1) as nat);
        assert(a * (sum_to(f, (k - 1) as nat) + f(k - 1)) == a * sum_to(f, (k - 1) as nat) + a
            * f(k - 1)) by (nonlinear_arith);
    } else {
        assert(a * 0 == 0);
    }
}

/// The sum of termwise differences is the difference of the sums.
pub proof fn lemma_sum_difference(
    f: spec_fn(int) -> int,
    g: spec_fn(int) -> int,
    h: spec_fn(int) -> int,
    k: nat,
)
    requires
        forall|i: int| 0 <= i < k ==> #[trigger] h(i) == f(i) - g(i),
    ensures
        sum_to(h, k) == sum_to(f, k) - sum_to(g, k),
    decreases k,
{
    if k > 0 {
        lemma_sum_difference(f, g, h, (k - 1) as nat);
    }
}

/// A sum may be split into its first term and the sum of the others.
pub proof fn lemma_sum_shift(f: spec_fn(int) -> int, g: spec_fn(int) -> int, k: nat)
    requires
        forall|i: int| 0 <= i < k ==> #[trigger] g(i) == f(i + 1),
    ensures
        sum_to(f, k + 1) == f(0) + sum_to(g, k),
    decreases k,
{
    if k > 0 {
        lemma_sum_shift(f, g, (k - 1) as nat);
        assert(sum_to(f, k + 1) == sum_to(f, k) + f(k as int));
        assert(sum_to(g, k) == sum_to(g, (k - 1) as nat) + g(k - 1));
    } else {
        assert(sum_to(f, 1) == sum_to(f, 0) + f(0));
    }
}

/// The points are field elements, no two of them the same.
pub open spec fn distinct_points(pts: Seq<int>, m: int) -> bool {
    &&& forall|i: int| 0 <= i < pts.len() ==> 0 <= #[trigger] pts[i] < m
    &&& !has_collision(pts)
}

/// A partial weight depends only on the points that it reads.
pub proof fn lemma_weight_prefix(pts: Seq<int>, qs: Seq<int>, i: int, k: nat, m: int)
    requires
        0 <= i < k,
        k <= pts.len(),
        k <= qs.len(),
        forall|t: int| 0 <= t < k ==> pts[t] == qs[t],
    ensures
        weight_upto(pts, i, k, m) == weight_upto(qs, i, k, m),
{
    lemma_weight_prefix_upto(pts, qs, i, k, k, m);
}

proof fn lemma_weight_prefix_upto(pts: Seq<int>, qs: Seq<int>, i: int, k: nat, n: nat, m: int)
    requires
        0 <= i < n,
        k <= n,
        n <= pts.len(),
        n <= qs.len(),
        forall|t: int| 0 <= t < n ==> pts[t] == qs[t],
    ensures
        weight_upto(pts, i, k, m) == weight_upto(qs, i, k, m),
    decreases k,
{
    if k > 0 {
        lemma_weight_prefix_upto(pts, qs, i, (k - 1) as nat, n, m);
    }
}

/// The factor that one point contributes to the weight of another, times
/// the difference of the two, is the negated point.
pub proof fn lemma_factor_times_difference(pts: Seq<int>, i: int, j: int, m: int)
    requires
        is_prime(m),
        0 <= i < pts.len(),
        0 <= j < pts.len(),
        0 <= pts[i] < m,
        0 <= pts[j] < m,
        pts[i] != pts[j],
    ensures
        (weight_factor(pts, i, j, m) * (pts[i] - pts[j])) % m == (-pts[j]) % m,
{
    let xi = pts[i];
    let xj = pts[j];
    let d: int = (xi - xj) % m;
    lemma_mod_bound(xi - xj, m);
    if d == 0 {
        lemma_mod_equivalence(xi, xj, m);
        lemma_small_mod(xi as nat, m as nat);
        lemma_small_mod(xj as nat, m as nat);
        assert(false);
    }
    lemma_inverse(d, m);
    let v: int = inv_mod(d, m);
    let nx: int = (0 - xj) % m;
    // factor * (xi - xj) == (nx * v) * (xi - xj) == nx * (v * d) == nx  (mod m)
    lemma_mul_mod_both(nx * v, xi - xj, m);
    assert((nx * v) * d == nx * (v * d)) by (nonlinear_arith);
    lemma_mul_by_unit(nx, v * d, m);
    lemma_mod_twice(0 - xj, m);
}

/// Leaving out the last point: the weight of another point, times its
/// difference from the last, is its weight among the others times the
/// negated last point.
pub proof fn lemma_weight_last(pts: Seq<int>, i: int, m: int)
    requires
        is_prime(m),
        distinct_points(pts, m),
        pts.len() >= 2,
        0 <= i < pts.len() - 1,
    ensures
        (weight(pts, i, m) * (pts[i] - pts.last())) % m == ((-pts.last()) * weight(
            pts.drop_last(),
            i,
            m,
        )) % m,
{
    let l: int = pts.len() - 1;
    let rest: int = weight(pts.drop_last(), i, m);
    let f: int = weight_factor(pts, i, l, m);
    let d: int = pts[i] - pts[l];
    lemma_weight_prefix(pts, pts.drop_last(), i, l as nat, m);
    assert(weight(pts, i, m) == (rest * f) % m);
    lemma_factor_times_difference(pts, i, l, m);
    lemma_mul_mod_both(rest * f, d, m);
    assert((rest * f) * d == rest * (f * d)) by (nonlinear_arith);
    lemma_mul_mod_both(rest, f * d, m);
    lemma_mul_mod_both(rest, -pts[l], m);
    assert(rest * (-pts[l]) == (-pts[l]) * rest) by (nonlinear_arith);
}

/// Leaving out the first point: a partial weight is the factor of the
/// first point times the partial weight among the others.
proof fn lemma_weight_shift(pts: Seq<int>, i: int, k: nat, m: int)
    requires
        m > 0,
        1 <= i < pts.len(),
        1 <= k <= pts.len(),
    ensures
        weight_upto(pts, i, k, m) == (weight_factor(pts, i, 0, m) * weight_upto(
            pts.drop_first(),
            i - 1,
            (k - 1) as nat,
            m,
        )) % m,
    decreases k,
{
    let q = pts.drop_first();
    let f0: int = weight_factor(pts, i, 0, m);
    if k == 1 {
        assert(weight_upto(pts, i, 0, m) == 1int % m);
        assert(weight_upto(pts, i, 1, m) == ((1int % m) * f0) % m);
        assert((1int % m) * f0 == f0 * (1int % m)) by (nonlinear_arith);
    } else {
        let j: int = k - 1;
        lemma_weight_shift(pts, i, (k - 1) as nat, m);
        let wq: int = weight_upto(q, i - 1, (k - 2) as nat, m);
        if j != i {
            let fj: int = weight_factor(pts, i, j, m);
            assert(weight_factor(q, i - 1, j - 1, m) == fj);
            assert(weight_upto(q, i - 1, (k - 1) as nat, m) == (wq * fj) % m);
            lemma_mul_mod_both(f0 * wq, fj, m);
            lemma_mul_mod_both(f0, wq * fj, m);
            assert((f0 * wq) * fj == f0 * (wq * fj)) by (nonlinear_arith);
        }
    }
}

/// Leaving out the first point: the weight of another point, times its
/// difference from the first, is its weight among the others times the
/// negated first point.
pub proof fn lemma_weight_first(pts: Seq<int>, i: int, m: int)
    requires
        is_prime(m),
        distinct_points(pts, m),
        pts.len() >= 2,
        1 <= i < pts.len(),
    ensures
        (weight(pts, i, m) * (pts[i] - pts[0])) % m == ((-pts[0]) * weight(
            pts.drop_first(),
            i - 1,
            m,
        )) % m,
{
    let rest: int = weight(pts.drop_first(), i - 1, m);
    let f: int = weight_factor(pts, i, 0, m);
    let d: int = pts[i] - pts[0];
    lemma_weight_shift(pts, i, pts.len(), m);
    assert(weight(pts, i, m) == (f * rest) % m);
    lemma_factor_times_difference(pts, i, 0, m);
    lemma_mul_mod_both(f * rest, d, m);
    assert((f * rest) * d == rest * (f * d)) by (nonlinear_arith);
    lemma_mul_mod_both(rest, f * d, m);
    lemma_mul_mod_both(rest, -pts[0], m);
    assert(rest * (-pts[0]) == (-pts[0]) * rest) by (nonlinear_arith);
}

/// Leaving out the first or the last of distinct points leaves distinct
/// points.
pub proof fn lemma_distinct_rest(pts: Seq<int>, m: int)
    requires
        distinct_points(pts, m),
        pts.len() >= 1,
    ensures
        distinct_points(pts.drop_first(), m),
        distinct_points(pts.drop_last(), m),
{
    let a = pts.drop_first();
    let b = pts.drop_last();
    if has_collision(a) {
        let (i, j) = choose|i: int, j: int|
            0 <= i < a.len() && 0 <= j < a.len() && i != j && a[i] == a[j];
        assert(pts[i + 1] == pts[j + 1]);
        assert(has_collision(pts));
    }
    if has_collision(b) {
        let (i, j) = choose|i: int, j: int|
            0 <= i < b.len() && 0 <= j < b.len() && i != j && b[i] == b[j];
        assert(pts[i] == pts[j]);
        assert(has_collision(pts));
    }
    assert forall|i: int| 0 <= i < a.len() implies 0 <= #[trigger] a[i] < m by {
        assert(a[i] == pts[i + 1]);
    }
    assert forall|i: int| 0 <= i < b.len() implies 0 <= #[trigger] b[i] < m by {
        assert(b[i] == pts[i]);
    }
}

/// The summand of a moment: the weight of a point times a power of it.
pub open spec fn moment_term(pts: Seq<int>, j: nat, m: int) -> spec_fn(int) -> int {
    |i: int| weight(pts, i, m) * pow(pts[i], j)
}

/// The `j`-th moment of the weights: the interpolation at zero of the
/// monomial of degree `j`.
pub open spec fn moment(pts: Seq<int>, j: nat, m: int) -> int {
    sum_to(moment_term(pts, j, m), pts.len())
}

/// Multiples of congruent numbers by one factor differ by a multiple of
/// the modulus.
proof fn lemma_scaled_difference(x: int, a: int, b: int, m: int)
    requires
        m > 0,
        a % m == b % m,
    ensures
        (x * a - x * b) % m == 0,
{
    lemma_mod_equivalence(a, b, m);
    lemma_mul_mod_both(x, a - b, m);
    assert(x * (a - b) == x * a - x * b) by (nonlinear_arith);
    assert(x * 0 == 0);
    lemma_small_mod(0, m as nat);
}

/// The weights of distinct points sum to one: they interpolate the
/// constant one.
proof fn lemma_moment_zero(pts: Seq<int>, m: int)
    requires
        is_prime(m),
        distinct_points(pts, m),
        pts.len() >= 1,
    ensures
        moment(pts, 0, m) % m == 1,
    decreases pts.len(),
{
    let n: nat = pts.len();
    let f0 = moment_term(pts, 0, m);
    lemma_small_mod(1, m as nat);
    if n == 1 {
        assert(sum_to(f0, 1) == sum_to(f0, 0) + f0(0));
        lemma_pow0(pts[0]);
        assert(weight_upto(pts, 0, 1, m) == weight_upto(pts, 0, 0, m));
        assert(f0(0) == 1int % m * 1);
    } else {
        let l: int = n - 1;
        let x0: int = pts[0];
        let xl: int = pts[l];
        let d: int = xl - x0;
        let q = pts.drop_first();
        let b = pts.drop_last();
        lemma_distinct_rest(pts, m);
        lemma_moment_zero(q, m);
        lemma_moment_zero(b, m);
        let fq = moment_term(q, 0, m);
        let fb = moment_term(b, 0, m);
        let fa = |i: int| weight(pts, i, m) * (pts[i] - x0);
        let fl = |i: int| weight(pts, i, m) * (pts[i] - xl);
        let ft = |i: int| d * f0(i);
        // d * moment == sum of fa - sum of fl
        lemma_sum_scaled(f0, ft, d, n);
        assert forall|i: int| 0 <= i < n implies #[trigger] ft(i) == fa(i) - fl(i) by {
            lemma_pow0(pts[i]);
            let w = weight(pts, i, m);
            let x = pts[i];
            assert((xl - x0) * (w * 1) == w * (x - x0) - w * (x - xl)) by (nonlinear_arith);
        }
        lemma_sum_difference(fa, fl, ft, n);
        // the sum of fa is -x0 (mod m)
        let ga = |i: int| fa(i + 1);
        let ha = |i: int| (-x0) * fq(i);
        lemma_sum_shift(fa, ga, (n - 1) as nat);
        assert(fa(0) == 0) by {
            assert(weight(pts, 0, m) * (x0 - x0) == 0) by (nonlinear_arith);
        }
        assert forall|i: int| 0 <= i < n - 1 implies #[trigger] ga(i) % m == ha(i) % m by {
            lemma_weight_first(pts, i + 1, m);
            lemma_pow0(q[i]);
            assert(weight(q, i, m) * 1 == weight(q, i, m));
        }
        lemma_sum_congruent(ga, ha, (n - 1) as nat, m);
        lemma_sum_scaled(fq, ha, -x0, (n - 1) as nat);
        lemma_mul_by_unit(-x0, moment(q, 0, m), m);
        assert(sum_to(fa, n) % m == (-x0) % m);
        // the sum of fl is -xl (mod m)
        let hl = |i: int| (-xl) * fb(i);
        assert(sum_to(fl, n) == sum_to(fl, (n - 1) as nat) + fl(l));
        assert(fl(l) == 0) by {
            assert(weight(pts, l, m) * (xl - xl) == 0) by (nonlinear_arith);
        }
        assert forall|i: int| 0 <= i < n - 1 implies #[trigger] fl(i) % m == hl(i) % m by {
            lemma_weight_last(pts, i, m);
            lemma_pow0(b[i]);
            assert(weight(b, i, m) * 1 == weight(b, i, m));
        }
        lemma_sum_congruent(fl, hl, (n - 1) as nat, m);
        lemma_sum_scaled(fb, hl, -xl, (n - 1) as nat);
        lemma_mul_by_unit(-xl, moment(b, 0, m), m);
        assert(sum_to(fl, n) % m == (-xl) % m);
        // hence d * moment == d (mod m), and d is not zero
        let total: int = moment(pts, 0, m);
        assert((d * total) % m == d % m) by {
            lemma_sub_mod_noop(sum_to(fa, n), sum_to(fl, n), m);
            lemma_sub_mod_noop(-x0, -xl, m);
        }
        let a: int = d % m;
        lemma_mod_bound(d, m);
        if a == 0 {
            lemma_mod_equivalence(xl, x0, m);
            lemma_small_mod(xl as nat, m as nat);
            lemma_small_mod(x0 as nat, m as nat);
            assert(pts[l] == pts[0]);
            assert(has_collision(pts));
        }
        lemma_mul_mod_both(d, total, m);
        assert(a * 1 == a);
        lemma_small_mod(a as nat, m as nat);
        lemma_cancel(m, a, total, 1);
    }
}

/// The moments of the weights of distinct points: one for the constant,
/// zero for every higher power up to the number of points.
pub proof fn lemma_moment(pts: Seq<int>, j: nat, m: int)
    requires
        is_prime(m),
        distinct_points(pts, m),
        j < pts.len(),
    ensures
        moment(pts, j, m) % m == if j == 0 {
            1int
        } else {
            0int
        },
    decreases pts.len(), j,
{
    if j == 0 {
        lemma_moment_zero(pts, m);
    } else {
        let n: nat = pts.len();
        let l: int = n - 1;
        let xl: int = pts[l];
        let b = pts.drop_last();
        let k: nat = (j - 1) as nat;
        lemma_distinct_rest(pts, m);
        lemma_moment(pts, k, m);
        lemma_moment(b, k, m);
        let fj = moment_term(pts, j, m);
        let fk = moment_term(pts, k, m);
        let fb = moment_term(b, k, m);
        let g = |i: int| xl * fk(i);
        let h = |i: int| xl * fb(i);
        let gh = |i: int| g(i) - h(i);
        assert forall|i: int| 0 <= i < n - 1 implies #[trigger] fj(i) % m == gh(i) % m by {
            let w = weight(pts, i, m);
            let wb = weight(b, i, m);
            let x = pts[i];
            let p = pow(x, k);
            lemma_weight_last(pts, i, m);
            lemma_pow_adds(x, 1, k);
            lemma_pow1(x);
            assert(pow(x, j) == x * p);
            // w * x * p == (w * (x - xl)) * p + xl * (w * p)
            assert(w * (x * p) == (w * (x - xl)) * p + xl * (w * p)) by (nonlinear_arith);
            lemma_mul_mod_both(w * (x - xl), p, m);
            lemma_mul_mod_both((-xl) * wb, p, m);
            assert(((-xl) * wb) * p == 0 - xl * (wb * p)) by (nonlinear_arith);
            lemma_add_mod_noop((w * (x - xl)) * p, xl * (w * p), m);
            lemma_add_mod_noop(0 - xl * (wb * p), xl * (w * p), m);
        }
        lemma_sum_congruent(fj, gh, (n - 1) as nat, m);
        lemma_sum_difference(g, h, gh, (n - 1) as nat);
        lemma_sum_scaled(fk, g, xl, n);
        lemma_sum_scaled(fb, h, xl, (n - 1) as nat);
        assert(fj(l) == g(l)) by {
            let w = weight(pts, l, m);
            let p = pow(xl, k);
            lemma_pow_adds(xl, 1, k);
            lemma_pow1(xl);
            assert(w * (xl * p) == xl * (w * p)) by (nonlinear_arith);
        }
        assert(sum_to(fj, n) == sum_to(fj, (n - 1) as nat) + fj(l));
        assert(sum_to(g, n) == sum_to(g, (n - 1) as nat) + g(l));
        // moment(pts, j) == xl * moment(pts, k) - xl * moment(b, k)  (mod m)
        let m1: int = moment(pts, k, m);
        let m2: int = moment(b, k, m);
        assert(moment(pts, j, m) % m == (xl * m1 - xl * m2) % m) by {
            lemma_add_mod_noop(sum_to(fj, (n - 1) as nat), fj(l), m);
            lemma_add_mod_noop(sum_to(gh, (n - 1) as nat), g(l), m);
        }
        lemma_scaled_difference(xl, m1, m2, m);
    }
}

/// The sum of termwise sums is the sum of the sums.
pub proof fn lemma_sum_plus(
    f: spec_fn(int) -> int,
    g: spec_fn(int) -> int,
    h: spec_fn(int) -> int,
    k: nat,
)
    requires
        forall|i: int| 0 <= i < k ==> #[trigger] h(i) == f(i) + g(i),
    ensures
        sum_to(h, k) == sum_to(f, k) + sum_to(g, k),
    decreases k,
{
    if k > 0 {
        lemma_sum_plus(f, g, h, (k - 1) as nat);
    }
}

/// The values of the polynomial with coefficients `c` at the points,
/// reduced modulo `m`.
pub open spec fn evaluations(c: Seq<int>, pts: Seq<int>, m: int) -> Seq<int> {
    Seq::new(pts.len(), |i: int| eval(c, pts[i]) % m)
}

/// The summand of an interpolation: the weight of a point times a value.
pub open spec fn interpolation_term(pts: Seq<int>, vals: Seq<int>, m: int) -> spec_fn(int) -> int {
    |i: int| weight(pts, i, m) * vals[i]
}

/// The summand of the interpolation of a polynomial: the weight of a point
/// times the value of the polynomial there.
pub open spec fn polynomial_term(pts: Seq<int>, c: Seq<int>, m: int) -> spec_fn(int) -> int {
    |i: int| weight(pts, i, m) * eval(c, pts[i])
}

/// An interpolation is the sum of its summands.
pub proof fn lemma_interpolate_is_sum(pts: Seq<int>, vals: Seq<int>, k: nat, m: int)
    ensures
        interpolate(pts, vals, k, m) == sum_to(interpolation_term(pts, vals, m), k),
    decreases k,
{
    if k > 0 {
        lemma_interpolate_is_sum(pts, vals, (k - 1) as nat, m);
    }
}

/// The weighted values of a polynomial of fewer coefficients than there
/// are distinct points sum to its constant term.
proof fn lemma_polynomial_sum(pts: Seq<int>, c: Seq<int>, m: int)
    requires
        is_prime(m),
        distinct_points(pts, m),
        c.len() <= pts.len(),
    ensures
        sum_to(polynomial_term(pts, c, m), pts.len()) % m == (if c.len() == 0 {
            0
        } else {
            c[0]
        }) % m,
    decreases c.len(),
{
    let n: nat = pts.len();
    let f = polynomial_term(pts, c, m);
    if c.len() == 0 {
        let zero = |i: int| 0int;
        assert forall|i: int| 0 <= i < n implies #[trigger] f(i) == 0 * zero(i) by {
            assert(weight(pts, i, m) * 0 == 0);
        }
        lemma_sum_scaled(zero, f, 0, n);
        assert(0 * sum_to(zero, n) == 0);
    } else {
        let d: nat = (c.len() - 1) as nat;
        let front = c.drop_last();
        let a: int = c.last();
        let ff = polynomial_term(pts, front, m);
        let mt = moment_term(pts, d, m);
        let g = |i: int| a * mt(i);
        assert forall|i: int| 0 <= i < n implies #[trigger] f(i) == ff(i) + g(i) by {
            let w = weight(pts, i, m);
            let e = eval(front, pts[i]);
            let p = pow(pts[i], d);
            assert(eval(c, pts[i]) == e + a * p);
            assert(w * (e + a * p) == w * e + a * (w * p)) by (nonlinear_arith);
        }
        lemma_sum_plus(ff, g, f, n);
        lemma_sum_scaled(mt, g, a, n);
        lemma_polynomial_sum(pts, front, m);
        lemma_moment(pts, d, m);
        let rest: int = sum_to(ff, n);
        let top: int = moment(pts, d, m);
        assert(sum_to(f, n) == rest + a * top);
        lemma_add_mod_noop(rest, a * top, m);
        if d == 0 {
            lemma_mul_by_unit(a, top, m);
            lemma_small_mod(0, m as nat);
            assert(rest % m == 0);
            lemma_add_mod_noop(0, a, m);
        } else {
            lemma_mul_mod_both(a, top, m);
            assert(a * 0 == 0);
            lemma_small_mod(0, m as nat);
            assert(front[0] == c[0]);
            lemma_add_mod_noop(c[0], 0, m);
        }
    }
}

/// Lagrange interpolation at zero recovers the constant term: the values
/// of a polynomial at distinct points of a prime field, at least as many
/// as it has coefficients, combine under the weights of the points to the
/// polynomial's value at zero.
pub proof fn lemma_interpolation(pts: Seq<int>, c: Seq<int>, m: int)
    requires
        is_prime(m),
        distinct_points(pts, m),
        c.len() <= pts.len(),
    ensures
        interpolate(pts, evaluations(c, pts, m), pts.len(), m) % m == (if c.len() == 0 {
            0
        } else {
            c[0]
        }) % m,
{
    let n: nat = pts.len();
    let vals = evaluations(c, pts, m);
    let f = interpolation_term(pts, vals, m);
    let g = polynomial_term(pts, c, m);
    lemma_interpolate_is_sum(pts, vals, n, m);
    assert forall|i: int| 0 <= i < n implies #[trigger] f(i) % m == g(i) % m by {
        lemma_mul_mod_both(weight(pts, i, m), eval(c, pts[i]), m);
    }
    lemma_sum_congruent(f, g, n, m);
    lemma_polynomial_sum(pts, c, m);
}

} // verus!
