use vstd::prelude::*;
use vstd::arithmetic::div_mod::*;
use std::collections::HashMap;
use crate::arith::inv_mod;
use crate::error::ShareError;
use crate::field::ModInt;

verus! {

/// The field elements at which the participants `ids` hold their shares:
/// each identifier reduced modulo `m`.
pub open spec fn points(ids: Seq<u16>, m: int) -> Seq<int> {
    Seq::new(ids.len(), |i: int| ids[i] as int % m)
}

/// Two different positions of `pts` hold the same field element.
pub open spec fn has_collision(pts: Seq<int>) -> bool {
    exists|i: int, j: int| 0 <= i < pts.len() && 0 <= j < pts.len() && i != j && pts[i] == pts[j]
}

/// The factor that the point at position `j` contributes to the weight of
/// the point at position `i`: `(0 - x_j) / (x_i - x_j)` in the field.
pub open spec fn weight_factor(pts: Seq<int>, i: int, j: int, m: int) -> int {
    (((0 - pts[j]) % m) * inv_mod((pts[i] - pts[j]) % m, m)) % m
}

/// The product of the factors of the positions below `n`, other than `i`.
pub open spec fn weight_upto(pts: Seq<int>, i: int, n: nat, m: int) -> int
    decreases n,
{
    if n == 0 {
        1int % m
    } else if n - 1 == i {
        weight_upto(pts, i, (n - 1) as nat, m)
    } else {
        (weight_upto(pts, i, (n - 1) as nat, m) * weight_factor(pts, i, n - 1, m)) % m
    }
}

/// The Lagrange weight of the point at position `i` for interpolation at
/// zero: the product over all other positions `j` of
/// `(0 - x_j) / (x_i - x_j)`.
pub open spec fn weight(pts: Seq<int>, i: int, m: int) -> int {
    weight_upto(pts, i, pts.len(), m)
}

/// The first `n` terms of the interpolation at zero: each value times the
/// weight of its point.
pub open spec fn interpolate(pts: Seq<int>, vals: Seq<int>, n: nat, m: int) -> int
    decreases n,
{
    if n == 0 {
        0
    } else {
        interpolate(pts, vals, (n - 1) as nat, m) + weight(pts, n - 1, m) * vals[n - 1]
    }
}

/// The weights with which the values of a polynomial at the points of the
/// participants `parts` combine to its value at zero, keyed by participant.
///
/// Participants whose identifiers coincide in the field make interpolation
/// impossible and are refused.
pub fn phis<const MOD: usize>(parts: &[u16]) -> (r: Result<HashMap<u16, ModInt<MOD>>, ShareError>)
    requires
        MOD > 0,
    ensures
        has_collision(points(parts@, MOD as int)) <==> r == Err::<
            HashMap<u16, ModInt<MOD>>,
            ShareError,
        >(ShareError::InvalidParticipants),
        !has_collision(points(parts@, MOD as int)) ==> {
            &&& r.is_ok()
            &&& r.unwrap()@.dom() == parts@.to_set()
            &&& forall|i: int|
                0 <= i < parts.len() ==> (#[trigger] r.unwrap()@[parts[i]])@ == weight(
                    points(parts@, MOD as int),
                    i,
                    MOD as int,
                )
        },
{
    broadcast use vstd::std_specs::hash::group_hash_axioms;

    let ghost m: int = MOD as int;
    let ghost pts: Seq<int> = points(parts@, m);
    let n: usize = parts.len();
    let mut res: HashMap<u16, ModInt<MOD>> = HashMap::new();
    let mut i: usize = 0;
    while i < n
        invariant
            MOD > 0,
            m == MOD as int,
            n == parts.len(),
            pts == points(parts@, m),
            0 <= i <= n,
            forall|a: int, b: int| 0 <= a < i && 0 <= b < n && a != b ==> pts[a] != pts[b],
            res@.dom() == parts@.take(i as int).to_set(),
            forall|a: int| 0 <= a < i ==> (#[trigger] res@[parts[a]])@ == weight(pts, a, m),
        decreases n - i,
    {
        let p: ModInt<MOD> = ModInt::new(parts[i] as usize);
        let mut r: ModInt<MOD> = ModInt::one();
        let mut j: usize = 0;
        while j < n
            invariant
                MOD > 0,
                m == MOD as int,
                n == parts.len(),
                pts == points(parts@, m),
                0 <= i < n,
                0 <= j <= n,
                p@ == pts[i as int],
                r@ == weight_upto(pts, i as int, j as nat, m),
                forall|b: int| 0 <= b < j && b != i ==> pts[i as int] != pts[b],
            decreases n - j,
        {
            let q: ModInt<MOD> = ModInt::new(parts[j] as usize);
            if i != j {
                if p == q {
                    assert(pts[i as int] == pts[j as int]);
                    return Err(ShareError::InvalidParticipants);
                }
                let d: ModInt<MOD> = p - q;
                proof {
                    // distinct reduced elements differ by a nonzero element
                    lemma_mod_bound(parts[i as int] as int, m);
                    lemma_mod_bound(parts[j as int] as int, m);
                    if d@ == 0 {
                        lemma_mod_equivalence(p@, q@, m);
                        lemma_small_mod(p@ as nat, m as nat);
                        lemma_small_mod(q@ as nat, m as nat);
                        assert(false);
                    }
                }
                match (ModInt::zero() - q) / d {
                    Ok(f) => {
                        r = r * f;
                    },
                    Err(e) => {
                        return Err(e);
                    },
                }
            }
            j = j + 1;
        }
        let ghost before = res@;
        res.insert(parts[i], r);
        proof {
            let key = parts[i as int];
            assert(parts@.take(i + 1) =~= parts@.take(i as int).push(key));
            parts@.take(i as int).lemma_push_to_set_commute(key);
            assert forall|a: int| 0 <= a < i + 1 implies (#[trigger] res@[parts[a]])@ == weight(
                pts,
                a,
                m,
            ) by {
                if a < i {
                    // an earlier participant has another point, hence another identifier
                    assert(pts[a] != pts[i as int]);
                    assert(parts[a] != key);
                    assert(before[parts[a]]@ == weight(pts, a, m));
                }
            }
        }
        i = i + 1;
    }
    proof {
        assert(parts@.take(n as int) =~= parts@);
        assert(!has_collision(pts));
    }
    Ok(res)
}

} // verus!
