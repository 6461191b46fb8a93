use vstd::prelude::*;
use vstd::arithmetic::div_mod::*;
use crate::arith::binomial;
use crate::arith::factorial;
use crate::arith::is_prime;
use crate::arith::lemma_binomial_is_pascal;
use crate::arith::lemma_inverse_recurrence;
use crate::arith::lemma_mul_by_unit;
use crate::arith::lemma_mul_mod_both;
use crate::arith::lemma_pascal_factorial;
use crate::arith::pascal;
use crate::field::mul_mod;

verus! {

/// Factorials and inverse factorials modulo the prime `MOD`, tabulated up
/// to a capacity, for constant-time binomial coefficients.
pub struct ModCom<const MOD: usize> {
    fac: Vec<usize>,
    finv: Vec<usize>,
}

/// `table[i]` is the factorial of `i`, reduced.
pub open spec fn holds_factorial(table: Seq<usize>, i: int, m: int) -> bool {
    table[i] == factorial(i as nat) % (m as nat)
}

/// `table[i]` is reduced and inverts the factorial of `i`.
pub open spec fn holds_inverse_factorial(table: Seq<usize>, i: int, m: int) -> bool {
    &&& table[i] < m
    &&& (table[i] * factorial(i as nat)) % m == 1
}

/// `table[i]` is reduced and inverts `i`.
pub open spec fn holds_inverse(table: Seq<usize>, i: int, m: int) -> bool {
    &&& table[i] < m
    &&& (table[i] * i) % m == 1
}

impl<const MOD: usize> ModCom<MOD> {
    /// Both tables have the same length, and every entry is what its
    /// index asks for.
    #[verifier::type_invariant]
    pub closed spec fn tabulated(self) -> bool {
        &&& MOD >= 2
        &&& self.fac.len() == self.finv.len()
        &&& forall|i: int|
            0 <= i < self.fac.len() ==> #[trigger] holds_factorial(self.fac@, i, MOD as int)
        &&& forall|i: int|
            0 <= i < self.finv.len() ==> #[trigger] holds_inverse_factorial(
                self.finv@,
                i,
                MOD as int,
            )
    }

    /// The number of rows that the table covers: `com(n, _)` is defined
    /// for `n` below it.
    pub closed spec fn cap(&self) -> nat {
        self.fac.len() as nat
    }

    /// Tabulates factorials and their inverses for arguments below `cap`,
    /// in time linear in `cap`.
    pub fn new(cap: usize) -> (r: Self)
        requires
            is_prime(MOD as int),
            2 <= cap <= MOD,
        ensures
            r.cap() == cap,
    {
        let mut fac: Vec<usize> = Vec::with_capacity(cap);
        let mut finv: Vec<usize> = Vec::with_capacity(cap);
        let mut inv: Vec<usize> = Vec::with_capacity(cap);
        fac.push(1);
        fac.push(1);
        finv.push(1);
        finv.push(1);
        inv.push(0);
        inv.push(1);
        proof {
            reveal_with_fuel(factorial, 2);
            lemma_small_mod(1, MOD as nat);
            assert(holds_factorial(fac@, 0, MOD as int));
            assert(holds_factorial(fac@, 1, MOD as int));
            assert(holds_inverse_factorial(finv@, 0, MOD as int));
            assert(holds_inverse_factorial(finv@, 1, MOD as int));
            assert(holds_inverse(inv@, 1, MOD as int));
        }
        let mut i: usize = 2;
        while i < cap
            invariant
                is_prime(MOD as int),
                2 <= i <= cap <= MOD,
                fac.len() == i,
                finv.len() == i,
                inv.len() == i,
                forall|j: int| 0 <= j < i ==> #[trigger] holds_factorial(fac@, j, MOD as int),
                forall|j: int|
                    0 <= j < i ==> #[trigger] holds_inverse_factorial(finv@, j, MOD as int),
                forall|j: int| 1 <= j < i ==> #[trigger] holds_inverse(inv@, j, MOD as int),
            decreases cap - i,
        {
            let ghost m: int = MOD as int;
            let r: usize = MOD % i;
            let q: usize = MOD / i;
            proof {
                assert(MOD as int % i as int != 0);
                lemma_mod_bound(m, i as int);
                lemma_div_decreases(m, i as int);
                assert(holds_factorial(fac@, i - 1, m));
                assert(holds_inverse_factorial(finv@, i - 1, m));
                assert(holds_inverse(inv@, r as int, m));
                lemma_inverse_recurrence(m, i as int, inv@[r as int] as int);
            }
            let next_fac: usize = mul_mod(fac[i - 1], i, MOD);
            let next_inv: usize = MOD - mul_mod(inv[r], q, MOD);
            let next_finv: usize = mul_mod(finv[i - 1], next_inv, MOD);
            proof {
                let f1: int = factorial((i - 1) as nat) as int;
                let f: int = factorial(i as nat) as int;
                assert(f == i * f1);
                // the factorial
                lemma_mul_mod_both(f1, i as int, m);
                assert(f1 * i == i * f1) by (nonlinear_arith);
                // the inverse factorial
                let a: int = finv@[i - 1] as int;
                lemma_mul_mod_both(a * next_inv, f, m);
                assert((a * next_inv) * f == (a * f1) * (next_inv * i)) by (nonlinear_arith)
                    requires
                        f == i * f1,
                ;
                lemma_mul_by_unit(a * f1, next_inv * i, m);
                lemma_small_mod(1, m as nat);
                assert((next_finv * f) % m == 1);
            }
            let ghost fac0 = fac@;
            let ghost finv0 = finv@;
            let ghost inv0 = inv@;
            fac.push(next_fac);
            inv.push(next_inv);
            finv.push(next_finv);
            proof {
                assert forall|j: int| 0 <= j < i + 1 implies #[trigger] holds_factorial(
                    fac@,
                    j,
                    m,
                ) by {
                    if j < i {
                        assert(holds_factorial(fac0, j, m));
                    }
                }
                assert forall|j: int| 0 <= j < i + 1 implies #[trigger] holds_inverse_factorial(
                    finv@,
                    j,
                    m,
                ) by {
                    if j < i {
                        assert(holds_inverse_factorial(finv0, j, m));
                    }
                }
                assert forall|j: int| 1 <= j < i + 1 implies #[trigger] holds_inverse(
                    inv@,
                    j,
                    m,
                ) by {
                    if j < i {
                        assert(holds_inverse(inv0, j, m));
                    }
                }
            }
            i = i + 1;
        }
        Self { fac, finv }
    }

    /// The binomial coefficient `n` over `k` modulo `MOD`, from three
    /// table entries; zero when `k` exceeds `n`.
    pub fn com(&self, n: usize, k: usize) -> (r: usize)
        requires
            n < k || n < self.cap(),
        ensures
            r == binomial(n as nat, k as nat) % (MOD as nat),
    {
        proof {
            use_type_invariant(self);
            lemma_small_mod(0, MOD as nat);
        }
        if n < k {
            return 0;
        }
        let ghost m: int = MOD as int;
        proof {
            assert(holds_factorial(self.fac@, n as int, m));
            assert(holds_inverse_factorial(self.finv@, k as int, m));
            assert(holds_inverse_factorial(self.finv@, n - k, m));
            lemma_mod_bound(factorial(n as nat) as int, m);
        }
        let both: usize = mul_mod(self.finv[k], self.finv[n - k], MOD);
        let r: usize = mul_mod(self.fac[n], both, MOD);
        proof {
            let c: int = pascal(n as nat, k as nat) as int;
            let fk: int = factorial(k as nat) as int;
            let fnk: int = factorial((n - k) as nat) as int;
            let ik: int = self.finv@[k as int] as int;
            let ink: int = self.finv@[n - k] as int;
            lemma_binomial_is_pascal(n as nat, k as nat);
            lemma_pascal_factorial(n as nat, k as nat);
            // r == (n! * (ik * ink)) % m
            lemma_mul_mod_both(factorial(n as nat) as int, ik * ink, m);
            // n! * (ik * ink) == (c * (ik * fk)) * (ink * fnk)
            assert(factorial(n as nat) * (ik * ink) == (c * (ik * fk)) * (ink * fnk))
                by (nonlinear_arith)
                requires
                    c * (fk * fnk) == factorial(n as nat),
            ;
            lemma_mul_by_unit(c * (ik * fk), ink * fnk, m);
            lemma_mul_by_unit(c, ik * fk, m);
        }
        r
    }
}

} // verus!
