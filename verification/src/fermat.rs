use vstd::prelude::*;
use vstd::arithmetic::div_mod::*;
use vstd::arithmetic::power::*;
use vstd::set_lib::lemma_int_range;
use vstd::set_lib::lemma_subset_equality;
use vstd::set_lib::set_int_range;
use crate::arith::factorial;
use crate::arith::inv_mod;
use crate::arith::is_prime;
use crate::arith::lemma_inverse_recurrence;
use crate::arith::lemma_mul_by_unit;
use crate::arith::lemma_mul_mod_both;

verus! {

/// An inverse of `a` modulo the prime `p`, found from the inverse of the
/// smaller number `p % a`.
pub open spec fn recurrent_inverse(p: int, a: int) -> int
    decreases a,
    when p > 0
{
    if a <= 1 || p <= a {
        1
    } else {
        p - (recurrent_inverse(p, p % a) * (p / a)) % p
    }
}

/// Every nonzero element modulo a prime has an inverse.
pub proof fn lemma_recurrent_inverse(p: int, a: int)
    requires
        is_prime(p),
        1 <= a < p,
    ensures
        0 < recurrent_inverse(p, a) < p,
        (recurrent_inverse(p, a) * a) % p == 1,
    decreases a,
{
    if a == 1 {
        lemma_small_mod(1, p as nat);
    } else {
        let r: int = p % a;
        assert(r != 0);
        lemma_mod_bound(p, a);
        lemma_recurrent_inverse(p, r);
        let y: int = recurrent_inverse(p, r);
        lemma_inverse_recurrence(p, a, y);
        lemma_mod_bound(y * (p / a), p);
    }
}

/// Modulo a prime, a common nonzero factor may be cancelled.
pub proof fn lemma_cancel(p: int, a: int, x: int, y: int)
    requires
        is_prime(p),
        0 < a < p,
        (a * x) % p == (a * y) % p,
    ensures
        x % p == y % p,
{
    let i: int = recurrent_inverse(p, a);
    lemma_recurrent_inverse(p, a);
    lemma_mul_by_unit(x, i * a, p);
    lemma_mul_by_unit(y, i * a, p);
    assert((i * a) * x == i * (a * x)) by (nonlinear_arith);
    assert((i * a) * y == i * (a * y)) by (nonlinear_arith);
    lemma_mul_mod_both(i, a * x, p);
    lemma_mul_mod_both(i, a * y, p);
}

/// Modulo a prime, a product of nonzero elements is nonzero.
pub proof fn lemma_no_zero_divisors(p: int, a: int, x: int)
    requires
        is_prime(p),
        0 < a < p,
        x % p != 0,
    ensures
        (a * x) % p != 0,
{
    if (a * x) % p == 0 {
        assert(a * 0 == 0);
        lemma_small_mod(0, p as nat);
        lemma_cancel(p, a, x, 0);
    }
}

/// The product of the elements of a sequence.
pub open spec fn product(s: Seq<int>) -> int
    decreases s.len(),
{
    if s.len() == 0 {
        1
    } else {
        product(s.drop_last()) * s.last()
    }
}

/// Taking an element out of a sequence takes it out of the product.
pub proof fn lemma_product_remove(s: Seq<int>, j: int)
    requires
        0 <= j < s.len(),
    ensures
        product(s) == product(s.remove(j)) * s[j],
    decreases s.len(),
{
    if j == s.len() - 1 {
        assert(s.remove(j) =~= s.drop_last());
    } else {
        let front = s.drop_last();
        lemma_product_remove(front, j);
        assert(front.remove(j) =~= s.remove(j).drop_last());
        assert(s.remove(j).last() == s.last());
        assert(product(s.remove(j)) == product(front.remove(j)) * s.last());
        assert((product(front.remove(j)) * front[j]) * s.last() == (product(front.remove(j))
            * s.last()) * s[j]) by (nonlinear_arith)
            requires
                front[j] == s[j],
        ;
    }
}

/// A sequence that lists the numbers from `1` to `n`, each once and in
/// whatever order, has the factorial of `n` for its product.
pub proof fn lemma_product_of_listing(s: Seq<int>, n: nat)
    requires
        s.no_duplicates(),
        forall|x: int| s.contains(x) <==> 1 <= x <= n,
    ensures
        s.len() == n,
        product(s) == factorial(n),
    decreases n,
{
    if n == 0 {
        if s.len() > 0 {
            assert(s.contains(s[0]));
        }
    } else {
        assert(s.contains(n as int));
        let j = choose|j: int| 0 <= j < s.len() && s[j] == n as int;
        let rest = s.remove(j);
        s.remove_ensures(j);
        assert(rest.no_duplicates()) by {
            assert forall|a: int, b: int|
                0 <= a < rest.len() && 0 <= b < rest.len() && a != b implies rest[a] != rest[b] by {
                let a0 = if a < j {
                    a
                } else {
                    a + 1
                };
                let b0 = if b < j {
                    b
                } else {
                    b + 1
                };
                assert(rest[a] == s[a0] && rest[b] == s[b0]);
            }
        }
        assert forall|x: int| rest.contains(x) <==> 1 <= x <= n - 1 by {
            if rest.contains(x) {
                let a = choose|a: int| 0 <= a < rest.len() && rest[a] == x;
                let a0 = if a < j {
                    a
                } else {
                    a + 1
                };
                assert(s[a0] == x);
                assert(s.contains(x));
                assert(a0 != j);
            }
            if 1 <= x <= n - 1 {
                assert(s.contains(x));
                let a0 = choose|a0: int| 0 <= a0 < s.len() && s[a0] == x;
                let a = if a0 < j {
                    a0
                } else {
                    a0 - 1
                };
                assert(rest[a] == x);
            }
        }
        lemma_product_of_listing(rest, (n - 1) as nat);
        lemma_product_remove(s, j);
        assert(factorial((n - 1) as nat) * n == n * factorial((n - 1) as nat))
            by (nonlinear_arith);
    }
}

/// The multiples `a * 1, a * 2, ..., a * n` reduced modulo `p`.
pub open spec fn multiples(a: int, n: nat, p: int) -> Seq<int> {
    Seq::new(n, |i: int| (a * (i + 1)) % p)
}

/// The product of the first `n` reduced multiples of `a` is congruent to
/// the `n`-th power of `a` times the factorial of `n`.
pub proof fn lemma_product_of_multiples(a: int, n: nat, p: int)
    requires
        p > 0,
    ensures
        product(multiples(a, n, p)) % p == (pow(a, n) * factorial(n)) % p,
    decreases n,
{
    if n == 0 {
        lemma_pow0(a);
        assert(pow(a, 0) * factorial(0) == 1) by {
            assert(1 * 1 == 1);
        }
    } else {
        let s = multiples(a, n, p);
        let k = (n - 1) as nat;
        assert(s.drop_last() =~= multiples(a, k, p));
        lemma_product_of_multiples(a, k, p);
        let front: int = product(multiples(a, k, p));
        // product(s) == front * ((a * n) % p)
        lemma_mul_mod_both(front, a * n, p);
        lemma_mul_mod_both(pow(a, k) * factorial(k), a * n, p);
        assert((pow(a, k) * factorial(k)) * (a * n) == (pow(a, k) * a) * (n * factorial(k)))
            by (nonlinear_arith);
        lemma_pow_adds(a, k, 1);
        lemma_pow1(a);
    }
}

/// The factorial of a number below a prime has an inverse modulo it.
pub proof fn lemma_factorial_inverse(p: int, n: nat) -> (y: int)
    requires
        is_prime(p),
        n < p,
    ensures
        (y * factorial(n)) % p == 1,
    decreases n,
{
    if n == 0 {
        lemma_small_mod(1, p as nat);
        assert(1 * factorial(0) == 1);
        1
    } else {
        let y0 = lemma_factorial_inverse(p, (n - 1) as nat);
        let i = recurrent_inverse(p, n as int);
        lemma_recurrent_inverse(p, n as int);
        let f0: int = factorial((n - 1) as nat) as int;
        assert((y0 * i) * (n * f0) == (y0 * f0) * (i * n)) by (nonlinear_arith);
        lemma_mul_by_unit(y0 * f0, i * n, p);
        y0 * i
    }
}

/// Fermat's little theorem: a nonzero element modulo a prime `p`, raised to
/// `p - 1`, is one.
pub proof fn lemma_fermat(a: int, p: int)
    requires
        is_prime(p),
        0 < a < p,
    ensures
        pow(a, (p - 1) as nat) % p == 1,
{
    let n = (p - 1) as nat;
    let s = multiples(a, n, p);
    // the reduced multiples are distinct ...
    assert forall|i: int, j: int| 0 <= i < s.len() && 0 <= j < s.len() && i != j implies s[i]
        != s[j] by {
        if s[i] == s[j] {
            lemma_cancel(p, a, i + 1, j + 1);
            lemma_small_mod((i + 1) as nat, p as nat);
            lemma_small_mod((j + 1) as nat, p as nat);
        }
    }
    // ... and none of them is zero,
    assert forall|i: int| 0 <= i < s.len() implies 1 <= #[trigger] s[i] < p by {
        lemma_small_mod((i + 1) as nat, p as nat);
        lemma_no_zero_divisors(p, a, i + 1);
        lemma_mod_bound(a * (i + 1), p);
    }
    // so they are the numbers from 1 to p - 1 in some order
    let range = set_int_range(1, p);
    lemma_int_range(1, p);
    s.unique_seq_to_set();
    vstd::seq_lib::seq_to_set_is_finite(s);
    assert(s.to_set().subset_of(range)) by {
        assert forall|x: int| s.to_set().contains(x) implies range.contains(x) by {
            let i = choose|i: int| 0 <= i < s.len() && s[i] == x;
            assert(1 <= s[i] < p);
        }
    }
    lemma_subset_equality(s.to_set(), range);
    assert forall|x: int| s.contains(x) <==> 1 <= x <= n by {
        assert(s.to_set().contains(x) == range.contains(x));
    }
    lemma_product_of_listing(s, n);
    lemma_product_of_multiples(a, n, p);
    // (p-1)! == a^(p-1) * (p-1)!  (mod p), and (p-1)! has an inverse
    let f: int = factorial(n) as int;
    let e: int = pow(a, n);
    assert(f % p == (e * f) % p);
    let y = lemma_factorial_inverse(p, n);
    lemma_mul_by_unit(e, y * f, p);
    assert(e * (y * f) == (e * f) * y) by (nonlinear_arith);
    lemma_mul_mod_both(e * f, y, p);
    lemma_mul_mod_both(f, y, p);
    assert(f * y == y * f) by (nonlinear_arith);
}

/// Modulo a prime `p`, the power `p - 2` of a nonzero element is its
/// inverse.
pub proof fn lemma_inverse(a: int, p: int)
    requires
        is_prime(p),
        0 < a < p,
    ensures
        0 < inv_mod(a, p) < p,
        (a * inv_mod(a, p)) % p == 1,
        (inv_mod(a, p) * a) % p == 1,
{
    lemma_fermat(a, p);
    let e: int = pow(a, (p - 2) as nat);
    lemma_pow_adds(a, 1, (p - 2) as nat);
    lemma_pow1(a);
    assert(pow(a, (p - 1) as nat) == a * e);
    lemma_mul_mod_both(a, e, p);
    lemma_mod_bound(e, p);
    assert(inv_mod(a, p) * a == a * inv_mod(a, p)) by (nonlinear_arith);
    if inv_mod(a, p) == 0 {
        assert(a * 0 == 0);
        lemma_small_mod(0, p as nat);
    }
}

} // verus!
