use vstd::prelude::*;
use vstd::arithmetic::div_mod::*;
use vstd::arithmetic::power::*;
use std::collections::HashMap;
use crate::arith::eval;
use crate::arith::lemma_eval_step;
use crate::error::ShareError;
use crate::field::ModInt;

verus! {

/// The representatives of a sequence of field elements.
pub open spec fn values<const MOD: usize>(c: Seq<ModInt<MOD>>) -> Seq<int> {
    Seq::new(c.len(), |i: int| c[i]@)
}

/// The coefficients of the sharing polynomial of threshold `k`: the secret
/// as constant term, then the first `k - 1` random elements.
pub open spec fn sharing_poly<const MOD: usize>(
    secret: ModInt<MOD>,
    rands: Seq<ModInt<MOD>>,
    k: int,
) -> Seq<ModInt<MOD>> {
    seq![secret] + rands.take(k - 1)
}

/// The value at `x` of the polynomial with coefficients `coeffs`, constant
/// term first, by multiply-then-add over ascending powers of `x`.
pub fn evaluate<const MOD: usize>(coeffs: &Vec<ModInt<MOD>>, x: ModInt<MOD>) -> (r: ModInt<MOD>)
    ensures
        r@ == eval(values(coeffs@), x@) % (MOD as int),
{
    let ghost m: int = MOD as int;
    let ghost c: Seq<int> = values(coeffs@);
    proof {
        use_type_invariant(x);
        x.lemma_reduced();
    }
    if coeffs.len() == 0 {
        proof {
            lemma_small_mod(0, m as nat);
        }
        return ModInt::zero();
    }
    let mut res: ModInt<MOD> = coeffs[0];
    let mut xn: ModInt<MOD> = x;
    let mut i: usize = 1;
    proof {
        assert(c.take(1).drop_last() =~= Seq::<int>::empty());
        assert(c.take(1).last() == c[0]);
        reveal_with_fuel(eval, 2);
        lemma_pow0(x@);
        lemma_pow1(x@);
        assert(eval(c.take(1), x@) == c[0]) by {
            assert(c[0] * 1 == c[0]);
        }
    }
    while i < coeffs.len()
        invariant
            m == MOD as int,
            m > 0,
            c == values(coeffs@),
            1 <= i <= coeffs.len(),
            res@ % m == eval(c.take(i as int), x@) % m,
            xn@ % m == pow(x@, i as nat) % m,
        decreases coeffs.len() - i,
    {
        let ghost acc: int = res@;
        let ghost power: int = xn@;
        let term: ModInt<MOD> = coeffs[i] * xn;
        res = res + term;
        xn = xn * x;
        proof {
            assert(c[i as int] == coeffs@[i as int]@);
            lemma_eval_step(c, i as int, x@, acc, power, m);
            lemma_mod_twice(acc + term@, m);
            lemma_mod_twice(power * x@, m);
        }
        i = i + 1;
    }
    proof {
        assert(c.take(coeffs.len() as int) =~= c);
        use_type_invariant(res);
        res.lemma_reduced();
        lemma_small_mod(res@ as nat, m as nat);
    }
    res
}

/// A participant of a sharing session.
///
/// It owns a secret, the random elements of which it makes its sharing
/// polynomial, the shares that it has received, keyed by sender, and the
/// value to which it has reduced them.
pub struct Player<const MOD: usize> {
    pub id: u16,
    pub secret: ModInt<MOD>,
    pub rands: Vec<ModInt<MOD>>,
    /// The coefficients of the sharing polynomial, constant term first,
    /// once it has been made.
    pub poly: Option<Vec<ModInt<MOD>>>,
    pub shares: HashMap<u16, ModInt<MOD>>,
    pub folded_share: ModInt<MOD>,
}

impl<const MOD: usize> Player<MOD> {
    /// The participant has made no polynomial and received no share.
    pub open spec fn is_created(self) -> bool {
        &&& self.poly.is_none()
        &&& self.shares@.dom() =~= Set::<u16>::empty()
    }

    /// The field element at which the participant holds its shares.
    pub open spec fn point(self) -> int {
        self.id as int % (MOD as int)
    }

    /// The share that the participant deals for the point `x` once it has
    /// made its polynomial for threshold `k`.
    pub open spec fn dealt(self, k: int, x: int) -> int {
        eval(values(sharing_poly(self.secret, self.rands@, k)), x) % (MOD as int)
    }

    /// A participant that has made no polynomial and received no share yet.
    pub fn new(id: u16, secret: ModInt<MOD>, rands: Vec<ModInt<MOD>>) -> (r: Self)
        ensures
            r.id == id,
            r.secret == secret,
            r.rands == rands,
            r.is_created(),
            r.folded_share@ == 0,
    {
        proof {
            use_type_invariant(secret);
            secret.lemma_reduced();
        }
        Self {
            id,
            secret,
            rands,
            poly: None,
            shares: HashMap::new(),
            folded_share: ModInt::zero(),
        }
    }

    /// Fixes the sharing polynomial for threshold `k` and stores the
    /// participant's own share, the polynomial's value at its own point.
    pub fn make_poly(&mut self, k: usize)
        requires
            1 <= k <= old(self).rands.len() + 1,
        ensures
            final(self).poly.is_some(),
            final(self).poly.unwrap()@ == sharing_poly(
                old(self).secret,
                old(self).rands@,
                k as int,
            ),
            final(self).shares@.dom() == old(self).shares@.dom().insert(old(self).id),
            forall|s: u16|
                s != old(self).id && old(self).shares@.contains_key(s) ==> final(self).shares@[s]
                    == old(self).shares@[s],
            final(self).shares@[old(self).id]@ == old(self).dealt(k as int, old(self).point()),
            final(self).id == old(self).id,
            final(self).secret == old(self).secret,
            final(self).rands == old(self).rands,
            final(self).folded_share == old(self).folded_share,
    {
        broadcast use vstd::std_specs::hash::group_hash_axioms;

        proof {
            use_type_invariant(self.secret);
            self.secret.lemma_reduced();
        }
        let mut coeffs: Vec<ModInt<MOD>> = Vec::with_capacity(k);
        coeffs.push(self.secret);
        let mut i: usize = 0;
        while i < k - 1
            invariant
                1 <= k <= self.rands.len() + 1,
                0 <= i <= k - 1,
                coeffs@ == seq![self.secret] + self.rands@.take(i as int),
            decreases k - 1 - i,
        {
            coeffs.push(self.rands[i]);
            proof {
                assert(self.rands@.take(i + 1) =~= self.rands@.take(i as int).push(
                    self.rands@[i as int],
                ));
                assert(coeffs@ =~= seq![self.secret] + self.rands@.take(i + 1));
            }
            i = i + 1;
        }
        let own: ModInt<MOD> = evaluate(&coeffs, ModInt::new(self.id as usize));
        self.poly = Some(coeffs);
        self.shares.insert(self.id, own);
    }

    /// The share meant for the participant `opposite_id`: the polynomial's
    /// value at that participant's point. There is none before the
    /// polynomial has been made.
    pub fn give_share(&self, opposite_id: u16) -> (r: Result<ModInt<MOD>, ShareError>)
        ensures
            self.poly.is_none() <==> r == Err::<ModInt<MOD>, ShareError>(
                ShareError::PrecursorMissing,
            ),
            self.poly.is_some() ==> r.is_ok() && r.unwrap()@ == eval(
                values(self.poly.unwrap()@),
                opposite_id as int % (MOD as int),
            ) % (MOD as int),
    {
        proof {
            use_type_invariant(self.secret);
            self.secret.lemma_reduced();
        }
        match &self.poly {
            Some(coeffs) => Ok(evaluate(coeffs, ModInt::new(opposite_id as usize))),
            None => Err(ShareError::PrecursorMissing),
        }
    }

    /// Takes from `opposite_player` the share meant for this participant
    /// and files it under the sender's identifier, in place of any earlier
    /// share of that sender. A sender without a polynomial has nothing to
    /// give, and nothing is filed.
    pub fn recieve_share(&mut self, opposite_player: &Player<MOD>) -> (r: Result<(), ShareError>)
        ensures
            opposite_player.poly.is_none() <==> r == Err::<(), ShareError>(
                ShareError::PrecursorMissing,
            ),
            opposite_player.poly.is_none() ==> *final(self) == *old(self),
            opposite_player.poly.is_some() ==> {
                &&& r.is_ok()
                &&& final(self).shares@.dom() == old(self).shares@.dom().insert(
                    opposite_player.id,
                )
                &&& forall|s: u16|
                    s != opposite_player.id && old(self).shares@.contains_key(s)
                        ==> final(self).shares@[s] == old(self).shares@[s]
                &&& final(self).shares@[opposite_player.id]@ == eval(
                    values(opposite_player.poly.unwrap()@),
                    old(self).id as int % (MOD as int),
                ) % (MOD as int)
                &&& final(self).id == old(self).id
                &&& final(self).secret == old(self).secret
                &&& final(self).rands == old(self).rands
                &&& final(self).poly == old(self).poly
                &&& final(self).folded_share == old(self).folded_share
            },
    {
        broadcast use vstd::std_specs::hash::group_hash_axioms;

        match opposite_player.give_share(self.id) {
            Ok(share) => {
                self.shares.insert(opposite_player.id, share);
                Ok(())
            },
            Err(e) => Err(e),
        }
    }

    /// Reduces the received shares to one value by `method` and keeps it.
    /// With no share received there is nothing to reduce.
    pub fn fold_share<F: Fn(&HashMap<u16, ModInt<MOD>>) -> ModInt<MOD>>(
        &mut self,
        method: F,
    ) -> (r: Result<(), ShareError>)
        requires
            !old(self).shares@.is_empty() ==> call_requires(method, (&old(self).shares,)),
        ensures
            old(self).shares@.is_empty() <==> r == Err::<(), ShareError>(
                ShareError::PrecursorMissing,
            ),
            old(self).shares@.is_empty() ==> *final(self) == *old(self),
            !old(self).shares@.is_empty() ==> {
                &&& r.is_ok()
                &&& call_ensures(method, (&old(self).shares,), final(self).folded_share)
                &&& final(self).id == old(self).id
                &&& final(self).secret == old(self).secret
                &&& final(self).rands == old(self).rands
                &&& final(self).poly == old(self).poly
                &&& final(self).shares == old(self).shares
            },
    {
        if self.shares.is_empty() {
            return Err(ShareError::PrecursorMissing);
        }
        self.folded_share = method(&self.shares);
        Ok(())
    }
}

} // verus!
