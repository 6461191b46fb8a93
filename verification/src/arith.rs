use vstd::prelude::*;
use vstd::arithmetic::div_mod::*;
use vstd::arithmetic::mul::*;
use vstd::arithmetic::power::*;

verus! {

/// The candidate inverse of `a` modulo `m`: `a` raised to `m - 2`, reduced.
pub open spec fn inv_mod(a: int, m: int) -> int {
    pow(a, (m - 2) as nat) % m
}

/// A factor may be reduced before a product is.
pub proof fn lemma_mul_mod_both(x: int, y: int, m: int)
    requires
        m > 0,
    ensures
        ((x % m) * y) % m == (x * y) % m,
        (x * (y % m)) % m == (x * y) % m,
        ((x % m) * (y % m)) % m == (x * y) % m,
{
    lemma_mul_mod_noop_left(x, y, m);
    lemma_mul_mod_noop_right(x, y, m);
    lemma_mul_mod_noop(x, y, m);
}

/// One round of square-and-multiply keeps `acc * base^e` fixed modulo `m`.
pub proof fn lemma_square_and_multiply(acc: int, base: int, e: nat, m: int)
    requires
        m > 0,
        e > 0,
    ensures
        e % 2 == 1 ==> (((acc * base) % m) * pow((base * base) % m, e / 2)) % m == (acc * pow(
            base,
            e,
        )) % m,
        e % 2 == 0 ==> (acc * pow((base * base) % m, e / 2)) % m == (acc * pow(base, e)) % m,
{
    let q: nat = e / 2;
    let sq: int = base * base;
    assert(pow(sq, q) == pow(base, 2 * q)) by {
        lemma_square_is_pow2(base);
        lemma_pow_multiplies(base, 2, q);
    }
    lemma_pow_mod_noop(sq, q, m);
    if e % 2 == 1 {
        let x: int = (acc * base) % m;
        assert(e == 2 * q + 1);
        assert(pow(base, e) == pow(base, 2 * q) * base) by {
            lemma_pow_adds(base, 2 * q, 1);
            lemma_pow1(base);
        }
        lemma_mul_mod_both(x, pow(sq % m, q), m);
        lemma_mul_mod_both(x, pow(sq, q), m);
        lemma_mul_mod_both(acc * base, pow(sq, q), m);
        assert((acc * base) * pow(sq, q) == acc * (pow(base, 2 * q) * base)) by (nonlinear_arith)
            requires
                pow(sq, q) == pow(base, 2 * q),
        ;
    } else {
        assert(e == 2 * q);
        lemma_mul_mod_both(acc, pow(sq % m, q), m);
        lemma_mul_mod_both(acc, pow(sq, q), m);
    }
}

/// A prime: at least two, with no divisor strictly between one and itself.
pub open spec fn is_prime(p: int) -> bool {
    &&& p >= 2
    &&& forall|d: int| 2 <= d < p ==> #[trigger] (p % d) != 0
}

/// The product `1 * 2 * ... * n`.
pub open spec fn factorial(n: nat) -> nat
    decreases n,
{
    if n == 0 {
        1
    } else {
        n * factorial((n - 1) as nat)
    }
}

/// The number of `k`-element subsets of an `n`-element set, by direct
/// factorial division; zero when `k` exceeds `n`.
pub open spec fn binomial(n: nat, k: nat) -> nat {
    if n < k {
        0
    } else {
        factorial(n) / (factorial(k) * factorial((n - k) as nat))
    }
}

/// Numbers that differ by a multiple of `m` leave the same remainder.
pub proof fn lemma_congruent(a: int, b: int, k: int, m: int)
    requires
        m > 0,
        a == b + k * m,
    ensures
        a % m == b % m,
{
    lemma_mod_multiples_vanish(k, b, m);
    assert(m * k + b == b + k * m) by (nonlinear_arith);
}

/// From the inverse of `m % i` the inverse of `i` follows:
/// `m - y * (m / i)` where `y` inverts `m % i`.
pub proof fn lemma_inverse_recurrence(m: int, i: int, y: int)
    requires
        m >= 2,
        2 <= i < m,
        (y * (m % i)) % m == 1,
    ensures
        (y * (m / i)) % m != 0,
        ((m - (y * (m / i)) % m) * i) % m == 1,
{
    let q: int = m / i;
    let r: int = m % i;
    let x: int = (y * q) % m;
    lemma_fundamental_div_mod(m, i);
    assert(m == i * q + r);
    // (m - x) * i  ==  -(x * i)  ==  -(y * q * i)  ==  y * r   (mod m)
    assert(((m - x) * i) % m == (x * (-i)) % m) by {
        assert((m - x) * i == x * (-i) + i * m) by (nonlinear_arith);
        lemma_congruent((m - x) * i, x * (-i), i, m);
    }
    assert((x * (-i)) % m == ((y * q) * (-i)) % m) by {
        lemma_mul_mod_both(y * q, -i, m);
    }
    assert(((y * q) * (-i)) % m == (y * r) % m) by {
        assert((y * q) * (-i) == y * r + (-y) * m) by (nonlinear_arith)
            requires
                m == i * q + r,
        ;
        lemma_congruent((y * q) * (-i), y * r, -y, m);
    }
    if x == 0 {
        assert((m - x) * i == i * m) by (nonlinear_arith)
            requires
                x == 0,
        ;
        lemma_mod_multiples_basic(i, m);
        assert(false);
    }
}

/// Multiplying by a number congruent to one changes no remainder.
pub proof fn lemma_mul_by_unit(c: int, u: int, m: int)
    requires
        m > 0,
        u % m == 1,
    ensures
        (c * u) % m == c % m,
        (u * c) % m == c % m,
{
    lemma_mul_mod_both(c, u, m);
    lemma_mul_mod_both(u, c, m);
    assert(c * 1 == c);
    assert(1 * c == c);
}

/// A factorial is positive.
pub proof fn lemma_factorial_positive(n: nat)
    ensures
        factorial(n) > 0,
    decreases n,
{
    if n > 0 {
        lemma_factorial_positive((n - 1) as nat);
        lemma_mul_strictly_positive(n as int, factorial((n - 1) as nat) as int);
    }
}

/// Pascal's triangle: each entry is the sum of the two above it.
pub open spec fn pascal(n: nat, k: nat) -> nat
    decreases n,
{
    if k == 0 {
        1
    } else if n == 0 {
        0
    } else {
        pascal((n - 1) as nat, (k - 1) as nat) + pascal((n - 1) as nat, k)
    }
}

/// Beyond the end of a row Pascal's triangle holds zero.
pub proof fn lemma_pascal_outside(n: nat, k: nat)
    requires
        n < k,
    ensures
        pascal(n, k) == 0,
    decreases n,
{
    if n > 0 {
        lemma_pascal_outside((n - 1) as nat, (k - 1) as nat);
        lemma_pascal_outside((n - 1) as nat, k);
    }
}

/// An entry of Pascal's triangle times the two smaller factorials is the
/// factorial of the row.
pub proof fn lemma_pascal_factorial(n: nat, k: nat)
    requires
        k <= n,
    ensures
        pascal(n, k) * (factorial(k) * factorial((n - k) as nat)) == factorial(n),
    decreases n,
{
    let fk: int = factorial(k) as int;
    let fnk: int = factorial((n - k) as nat) as int;
    if k == 0 {
        assert(pascal(n, k) * (fk * fnk) == fnk) by (nonlinear_arith)
            requires
                pascal(n, k) == 1,
                fk == 1,
        ;
    } else if k == n {
        lemma_pascal_outside((n - 1) as nat, k);
        lemma_pascal_factorial((n - 1) as nat, (k - 1) as nat);
        let a: int = pascal((n - 1) as nat, (k - 1) as nat) as int;
        let fk1: int = factorial((k - 1) as nat) as int;
        lemma_factorial_positive((k - 1) as nat);
        assert(a * (fk1 * 1) == fk1);
        assert(a == 1) by (nonlinear_arith)
            requires
                a * (fk1 * 1) == fk1,
                fk1 > 0,
        ;
        assert(pascal(n, k) * (fk * fnk) == fk) by (nonlinear_arith)
            requires
                pascal(n, k) == 1,
                fnk == 1,
        ;
    } else {
        let a: int = pascal((n - 1) as nat, (k - 1) as nat) as int;
        let b: int = pascal((n - 1) as nat, k) as int;
        let fk1: int = factorial((k - 1) as nat) as int;
        let fnk1: int = factorial((n - k - 1) as nat) as int;
        let fn1: int = factorial((n - 1) as nat) as int;
        lemma_pascal_factorial((n - 1) as nat, (k - 1) as nat);
        lemma_pascal_factorial((n - 1) as nat, k);
        assert(a * (fk1 * fnk) == fn1);
        assert(b * (fk * fnk1) == fn1);
        assert(fk == k * fk1);
        assert(fnk == (n - k) * fnk1);
        assert(factorial(n) == n * fn1);
        let t: int = fk1 * fnk;
        let u: int = fk * fnk1;
        assert(a * (fk * fnk) == k * (a * t)) by (nonlinear_arith)
            requires
                fk == k * fk1,
                t == fk1 * fnk,
        ;
        assert(b * (fk * fnk) == (n - k) * (b * u)) by (nonlinear_arith)
            requires
                fnk == (n - k) * fnk1,
                u == fk * fnk1,
        ;
        assert((a + b) * (fk * fnk) == a * (fk * fnk) + b * (fk * fnk)) by (nonlinear_arith);
        assert(k * fn1 + (n - k) * fn1 == n * fn1) by (nonlinear_arith);
    }
}

/// Direct factorial division gives the entries of Pascal's triangle.
pub proof fn lemma_binomial_is_pascal(n: nat, k: nat)
    ensures
        binomial(n, k) == pascal(n, k),
{
    if n < k {
        lemma_pascal_outside(n, k);
    } else {
        let d: int = (factorial(k) * factorial((n - k) as nat)) as int;
        lemma_factorial_positive(k);
        lemma_factorial_positive((n - k) as nat);
        lemma_mul_strictly_positive(factorial(k) as int, factorial((n - k) as nat) as int);
        lemma_pascal_factorial(n, k);
        lemma_div_multiples_vanish(pascal(n, k) as int, d);
        assert(d * pascal(n, k) == pascal(n, k) * d) by (nonlinear_arith);
    }
}

/// The value at `x` of the polynomial with coefficients `c`, constant term
/// first: the sum of `c[i] * x^i`.
pub open spec fn eval(c: Seq<int>, x: int) -> int
    decreases c.len(),
{
    if c.len() == 0 {
        0
    } else {
        eval(c.drop_last(), x) + c.last() * pow(x, (c.len() - 1) as nat)
    }
}

/// One more term of a polynomial, added to a reduced partial value with a
/// reduced power, gives the next partial value, reduced.
pub proof fn lemma_eval_step(c: Seq<int>, i: int, x: int, acc: int, xn: int, m: int)
    requires
        m > 0,
        0 <= i < c.len(),
        acc % m == eval(c.take(i), x) % m,
        xn % m == pow(x, i as nat) % m,
    ensures
        (acc + (c[i] * xn) % m) % m == eval(c.take(i + 1), x) % m,
        (xn * x) % m == pow(x, (i + 1) as nat) % m,
{
    let t: Seq<int> = c.take(i + 1);
    assert(t.drop_last() =~= c.take(i));
    assert(t.last() == c[i]);
    assert(eval(t, x) == eval(c.take(i), x) + c[i] * pow(x, i as nat));
    // the term
    lemma_mul_mod_both(c[i], xn, m);
    lemma_mul_mod_both(c[i], pow(x, i as nat), m);
    assert((c[i] * xn) % m == (c[i] * pow(x, i as nat)) % m);
    // the sum
    lemma_add_mod_noop(acc, c[i] * xn, m);
    lemma_add_mod_noop(eval(c.take(i), x), c[i] * pow(x, i as nat), m);
    lemma_add_mod_noop_right(acc, c[i] * xn, m);
    // the power
    lemma_mul_mod_both(xn, x, m);
    lemma_mul_mod_both(pow(x, i as nat), x, m);
    lemma_pow_adds(x, i as nat, 1);
    lemma_pow1(x);
}

} // verus!
