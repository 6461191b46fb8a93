use vstd::prelude::*;
use vstd::arithmetic::div_mod::*;
use vstd::arithmetic::power::*;
use vstd::std_specs::cmp::PartialEqSpecImpl;
use vstd::std_specs::ops::AddSpecImpl;
use vstd::std_specs::ops::DivSpecImpl;
use vstd::std_specs::ops::MulSpecImpl;
use vstd::std_specs::ops::RemSpecImpl;
use vstd::std_specs::ops::SubSpecImpl;
use crate::arith::inv_mod;
use crate::arith::is_prime;
use crate::arith::lemma_mul_by_unit;
use crate::arith::lemma_mul_mod_both;
use crate::arith::lemma_square_and_multiply;
use crate::error::ShareError;
use crate::fermat::lemma_inverse;

verus! {

/// An element of the integers modulo `MOD`.
///
/// Every value holds a representative in `[0, MOD)`; its view is that
/// representative as a mathematical integer.
#[derive(Debug, Copy, Clone)]
pub struct ModInt<const MOD: usize> {
    val: usize,
}

impl<const MOD: usize> View for ModInt<MOD> {
    type V = int;

    closed spec fn view(&self) -> int {
        self.val as int
    }
}

impl<const MOD: usize> ModInt<MOD> {
    /// The representative is reduced: it lies below `MOD`.
    #[verifier::type_invariant]
    pub closed spec fn reduced(self) -> bool {
        self.val < MOD
    }

    /// The element whose representative is `v`, for `v` in `[0, MOD)`.
    pub closed spec fn of(v: int) -> Self {
        ModInt { val: v as usize }
    }

    /// A reduced element has its representative in `[0, MOD)`.
    pub proof fn lemma_reduced(self)
        requires
            self.reduced(),
        ensures
            0 <= self@ < MOD,
    {
    }

    /// `of` and the view are inverse to each other on `[0, MOD)`.
    pub proof fn lemma_of_view(v: int)
        requires
            0 <= v < MOD,
        ensures
            Self::of(v)@ == v,
            Self::of(v).reduced(),
    {
    }

    /// Elements with the same representative are the same element.
    pub proof fn lemma_view_injective(self, other: Self)
        requires
            self@ == other@,
        ensures
            self == other,
    {
    }

    /// Reduces `n` modulo `MOD`.
    pub fn new(n: usize) -> (r: Self)
        requires
            MOD > 0,
        ensures
            r@ == n % MOD,
            0 <= r@ < MOD,
    {
        Self { val: n % MOD }
    }

    /// The additive identity.
    pub fn zero() -> (r: Self)
        requires
            MOD > 0,
        ensures
            r@ == 0,
    {
        Self { val: 0 }
    }

    /// Whether this is the additive identity.
    pub fn is_zero(&self) -> (r: bool)
        ensures
            r == (self@ == 0),
    {
        self.val == 0
    }

    /// Overwrites the element with the additive identity.
    pub fn set_zero(&mut self)
        ensures
            final(self)@ == 0,
    {
        proof {
            use_type_invariant(&*self);
        }
        self.val = 0;
    }

    /// The multiplicative identity: `1`, or `0` in the one-element ring.
    pub fn one() -> (r: Self)
        requires
            MOD > 0,
        ensures
            r@ == 1int % (MOD as int),
    {
        Self { val: 1 % MOD }
    }

    /// Whether this is the multiplicative identity.
    pub fn is_one(&self) -> (r: bool)
        ensures
            r == (self@ == 1int % (MOD as int)),
    {
        proof {
            use_type_invariant(self);
        }
        self.val == 1 % MOD
    }

    /// Overwrites the element with the multiplicative identity.
    pub fn set_one(&mut self)
        ensures
            final(self)@ == 1int % (MOD as int),
    {
        proof {
            use_type_invariant(&*self);
        }
        self.val = 1 % MOD;
    }

    /// Overwrites the element with `val` reduced modulo `MOD`.
    pub fn _set_val(&mut self, val: usize)
        ensures
            final(self)@ == val % MOD,
    {
        proof {
            use_type_invariant(&*self);
        }
        self.val = val % MOD;
    }

    /// The representative in `[0, MOD)`.
    pub fn val(&self) -> (r: usize)
        ensures
            r == self@,
            r < MOD,
    {
        proof {
            use_type_invariant(self);
        }
        self.val
    }
}

impl<const MOD: usize> PartialEq for ModInt<MOD> {
    fn eq(&self, other: &Self) -> (r: bool) {
        self.val == other.val
    }
}

impl<const MOD: usize> Eq for ModInt<MOD> {
}

impl<const MOD: usize> PartialEqSpecImpl for ModInt<MOD> {
    open spec fn obeys_eq_spec() -> bool {
        true
    }

    open spec fn eq_spec(&self, other: &Self) -> bool {
        self@ == other@
    }
}

impl<const MOD: usize> AddSpecImpl for ModInt<MOD> {
    open spec fn obeys_add_spec() -> bool {
        true
    }

    open spec fn add_req(self, rhs: Self) -> bool {
        true
    }

    open spec fn add_spec(self, rhs: Self) -> Self {
        Self::of((self@ + rhs@) % (MOD as int))
    }
}

impl<const MOD: usize> core::ops::Add for ModInt<MOD> {
    type Output = Self;

    /// Modular sum.
    fn add(self, other: Self) -> (r: Self)
        ensures
            r@ == (self@ + other@) % (MOD as int),
            0 <= r@ < MOD,
    {
        proof {
            use_type_invariant(self);
            use_type_invariant(other);
        }
        let a: usize = self.val;
        let b: usize = other.val;
        let v: usize = if a >= MOD - b {
            proof {
                lemma_mod_add_multiples_vanish(a + b - MOD, MOD as int);
                lemma_small_mod((a + b - MOD) as nat, MOD as nat);
            }
            a - (MOD - b)
        } else {
            proof {
                lemma_small_mod((a + b) as nat, MOD as nat);
            }
            a + b
        };
        Self { val: v }
    }
}

impl<const MOD: usize> core::ops::AddAssign for ModInt<MOD> {
    /// Modular sum, in place.
    fn add_assign(&mut self, other: Self)
        ensures
            final(self)@ == (old(self)@ + other@) % (MOD as int),
    {
        *self = *self + other;
    }
}

impl<const MOD: usize> SubSpecImpl for ModInt<MOD> {
    open spec fn obeys_sub_spec() -> bool {
        true
    }

    open spec fn sub_req(self, rhs: Self) -> bool {
        true
    }

    open spec fn sub_spec(self, rhs: Self) -> Self {
        Self::of((self@ - rhs@) % (MOD as int))
    }
}

impl<const MOD: usize> core::ops::Sub for ModInt<MOD> {
    type Output = Self;

    /// Modular difference; a minuend below the subtrahend borrows `MOD`.
    fn sub(self, other: Self) -> (r: Self)
        ensures
            r@ == (self@ - other@) % (MOD as int),
            0 <= r@ < MOD,
    {
        proof {
            use_type_invariant(self);
            use_type_invariant(other);
        }
        let a: usize = self.val;
        let b: usize = other.val;
        let v: usize = if a < b {
            proof {
                lemma_mod_add_multiples_vanish(a - b, MOD as int);
                lemma_small_mod((MOD - b + a) as nat, MOD as nat);
            }
            MOD - b + a
        } else {
            proof {
                lemma_small_mod((a - b) as nat, MOD as nat);
            }
            a - b
        };
        Self { val: v }
    }
}

impl<const MOD: usize> core::ops::SubAssign for ModInt<MOD> {
    /// Modular difference, in place.
    fn sub_assign(&mut self, other: Self)
        ensures
            final(self)@ == (old(self)@ - other@) % (MOD as int),
    {
        *self = *self - other;
    }
}

/// The product of two reduced representatives, reduced again; the product is
/// formed in twice the width, so it cannot overflow.
pub(crate) fn mul_mod(a: usize, b: usize, m: usize) -> (r: usize)
    requires
        a < m,
        b < m,
    ensures
        r == (a * b) % (m as int),
        r < m,
{
    assert(a * b <= usize::MAX * usize::MAX) by (nonlinear_arith)
        requires
            a <= usize::MAX,
            b <= usize::MAX,
    ;
    assert(usize::MAX * usize::MAX <= u128::MAX) by (nonlinear_arith)
        requires
            usize::MAX <= u64::MAX,
    ;
    let wide: u128 = (a as u128) * (b as u128);
    let reduced: u128 = wide % (m as u128);
    reduced as usize
}

impl<const MOD: usize> MulSpecImpl for ModInt<MOD> {
    open spec fn obeys_mul_spec() -> bool {
        true
    }

    open spec fn mul_req(self, rhs: Self) -> bool {
        true
    }

    open spec fn mul_spec(self, rhs: Self) -> Self {
        Self::of((self@ * rhs@) % (MOD as int))
    }
}

impl<const MOD: usize> core::ops::Mul for ModInt<MOD> {
    type Output = Self;

    /// Modular product.
    fn mul(self, other: Self) -> (r: Self)
        ensures
            r@ == (self@ * other@) % (MOD as int),
            0 <= r@ < MOD,
    {
        proof {
            use_type_invariant(self);
            use_type_invariant(other);
        }
        Self { val: mul_mod(self.val, other.val, MOD) }
    }
}

impl<const MOD: usize> core::ops::MulAssign for ModInt<MOD> {
    /// Modular product, in place.
    fn mul_assign(&mut self, other: Self)
        ensures
            final(self)@ == (old(self)@ * other@) % (MOD as int),
    {
        *self = *self * other;
    }
}

impl<const MOD: usize> ModInt<MOD> {
    /// `self` raised to `n` by square-and-multiply.
    pub fn pow_u(&self, n: usize) -> (r: Self)
        ensures
            r@ == pow(self@, n as nat) % (MOD as int),
            0 <= r@ < MOD,
    {
        proof {
            use_type_invariant(self);
            lemma_mul_mod_both(1, pow(self@, n as nat), MOD as int);
        }
        let mut e: usize = n;
        let mut base: usize = self.val;
        let mut acc: usize = 1 % MOD;
        while e > 0
            invariant
                MOD > 0,
                base < MOD,
                acc < MOD,
                (acc * pow(base as int, e as nat)) % (MOD as int) == pow(self@, n as nat) % (
                MOD as int),
            decreases e,
        {
            proof {
                lemma_square_and_multiply(acc as int, base as int, e as nat, MOD as int);
            }
            if e % 2 == 1 {
                acc = mul_mod(acc, base, MOD);
            }
            base = mul_mod(base, base, MOD);
            e = e / 2;
        }
        proof {
            lemma_pow0(base as int);
            lemma_small_mod(acc as nat, MOD as nat);
        }
        Self { val: acc }
    }

    /// `self` raised to the representative of `other`.
    pub fn pow(&self, other: Self) -> (r: Self)
        ensures
            r@ == pow(self@, other@ as nat) % (MOD as int),
    {
        self.pow_u(other.val)
    }

    /// The multiplicative inverse, as the power `MOD - 2`; zero has none.
    /// For a prime `MOD` the product of an element and its inverse is one.
    pub fn inv(&self) -> (r: Result<Self, ShareError>)
        ensures
            self@ == 0 <==> r == Err::<Self, ShareError>(ShareError::DivisionByZero),
            self@ != 0 ==> r.is_ok() && r.unwrap()@ == inv_mod(self@, MOD as int),
            self@ != 0 && is_prime(MOD as int) ==> (self@ * r.unwrap()@) % (MOD as int) == 1,
    {
        proof {
            use_type_invariant(self);
        }
        if self.val == 0 {
            Err(ShareError::DivisionByZero)
        } else {
            proof {
                if is_prime(MOD as int) {
                    lemma_inverse(self@, MOD as int);
                }
            }
            Ok(self.pow_u(MOD - 2))
        }
    }
}

impl<const MOD: usize> DivSpecImpl for ModInt<MOD> {
    open spec fn obeys_div_spec() -> bool {
        true
    }

    open spec fn div_req(self, rhs: Self) -> bool {
        true
    }

    open spec fn div_spec(self, rhs: Self) -> Result<Self, ShareError> {
        if rhs@ == 0 {
            Err(ShareError::DivisionByZero)
        } else {
            Ok(Self::of((self@ * inv_mod(rhs@, MOD as int)) % (MOD as int)))
        }
    }
}

impl<const MOD: usize> core::ops::Div for ModInt<MOD> {
    type Output = Result<Self, ShareError>;

    /// Modular quotient: the product with the divisor's inverse. A zero
    /// divisor is an error. For a prime `MOD` the quotient times the
    /// divisor is the dividend.
    fn div(self, other: Self) -> (r: Result<Self, ShareError>)
        ensures
            other@ == 0 <==> r == Err::<Self, ShareError>(ShareError::DivisionByZero),
            other@ != 0 ==> r.is_ok() && r.unwrap()@ == (self@ * inv_mod(other@, MOD as int)) % (
            MOD as int),
            other@ != 0 && is_prime(MOD as int) ==> (r.unwrap()@ * other@) % (MOD as int)
                == self@,
    {
        match other.inv() {
            Ok(i) => {
                let q = self * i;
                proof {
                    use_type_invariant(self);
                    use_type_invariant(other);
                    if is_prime(MOD as int) {
                        let m = MOD as int;
                        lemma_inverse(other@, m);
                        lemma_mul_mod_both(self@ * i@, other@, m);
                        assert((self@ * i@) * other@ == self@ * (i@ * other@))
                            by (nonlinear_arith);
                        lemma_mul_by_unit(self@, i@ * other@, m);
                        lemma_small_mod(self@ as nat, m as nat);
                    }
                    lemma_mod_bound(self@ * inv_mod(other@, MOD as int), MOD as int);
                    Self::lemma_of_view((self@ * inv_mod(other@, MOD as int)) % (MOD as int));
                    q.lemma_view_injective(
                        Self::of((self@ * inv_mod(other@, MOD as int)) % (MOD as int)),
                    );
                }
                Ok(q)
            },
            Err(e) => Err(e),
        }
    }
}

impl<const MOD: usize> core::ops::DivAssign for ModInt<MOD> {
    /// Modular quotient, in place, for a nonzero divisor.
    fn div_assign(&mut self, other: Self)
        requires
            other@ != 0,
        ensures
            final(self)@ == (old(self)@ * inv_mod(other@, MOD as int)) % (MOD as int),
    {
        proof {
            use_type_invariant(other);
        }
        *self = *self * other.pow_u(MOD - 2);
    }
}

impl<const MOD: usize> RemSpecImpl for ModInt<MOD> {
    open spec fn obeys_rem_spec() -> bool {
        true
    }

    open spec fn rem_req(self, rhs: Self) -> bool {
        rhs@ != 0
    }

    open spec fn rem_spec(self, rhs: Self) -> Self {
        Self::of(self@ % rhs@)
    }
}

impl<const MOD: usize> core::ops::Rem for ModInt<MOD> {
    type Output = Self;

    /// The remainder of one representative by another, nonzero one.
    fn rem(self, other: Self) -> (r: Self)
        ensures
            r@ == self@ % other@,
    {
        proof {
            use_type_invariant(self);
            use_type_invariant(other);
            lemma_mod_decreases(self.val as nat, other.val as nat);
        }
        Self { val: self.val % other.val }
    }
}

impl<const MOD: usize> core::ops::RemAssign for ModInt<MOD> {
    /// The remainder by a nonzero representative, in place.
    fn rem_assign(&mut self, other: Self)
        requires
            other@ != 0,
        ensures
            final(self)@ == old(self)@ % other@,
    {
        *self = *self % other;
    }
}

} // verus!
