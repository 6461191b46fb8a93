use vstd::prelude::*;
use vstd::arithmetic::div_mod::*;
use vstd::set_lib::lemma_subset_equality;
use vstd::std_specs::hash::spec_hash_map_iter;
use vstd::std_specs::iter::IteratorSpec;
use std::collections::HashMap;
use crate::arith::lemma_mul_mod_both;
use crate::error::ShareError;
use crate::field::ModInt;
use crate::fold::Reduction;
use crate::fold::lemma_reduce_listing;
use crate::fold::reduce;
use crate::fold::reduce_seq;
use crate::lagrange::has_collision;
use crate::lagrange::interpolate;
use crate::lagrange::phis;
use crate::lagrange::points;
use crate::lagrange::weight;

verus! {

/// The representatives of a table of shares.
pub open spec fn share_values<const MOD: usize>(shares: Map<u16, ModInt<MOD>>) -> Map<u16, int> {
    Map::new(|k: u16| shares.contains_key(k), |k: u16| shares[k]@)
}

/// The shares of a table, each multiplied by the weight of its sender.
pub open spec fn weighted_values<const MOD: usize>(
    weights: Map<u16, ModInt<MOD>>,
    shares: Map<u16, ModInt<MOD>>,
) -> Map<u16, int> {
    Map::new(|k: u16| shares.contains_key(k), |k: u16| weights[k]@ * shares[k]@)
}

/// A walk over a table that visits as many entries as the table has, each
/// of them an entry of the table and none twice, visits every key once.
proof fn lemma_walk_lists_table<const MOD: usize>(
    table: Map<u16, ModInt<MOD>>,
    walk: Seq<(&u16, &ModInt<MOD>)>,
    keys: Seq<u16>,
)
    requires
        table.dom().finite(),
        walk.no_duplicates(),
        walk.len() == table.dom().len(),
        forall|i: int|
            0 <= i < walk.len() ==> table.contains_key(*(#[trigger] walk[i]).0) && table[*walk[i].0]
                == *walk[i].1,
        keys.len() == walk.len(),
        forall|i: int| 0 <= i < keys.len() ==> #[trigger] keys[i] == *walk[i].0,
    ensures
        keys.no_duplicates(),
        keys.to_set() =~= table.dom(),
{
    assert forall|i: int, j: int|
        0 <= i < keys.len() && 0 <= j < keys.len() && i != j implies keys[i] != keys[j] by {
        if keys[i] == keys[j] {
            assert(*walk[i].1 == *walk[j].1);
            assert(walk[i] == walk[j]);
        }
    }
    keys.unique_seq_to_set();
    assert(keys.to_set().subset_of(table.dom())) by {
        assert forall|x: u16| keys.to_set().contains(x) implies table.dom().contains(x) by {
            let i = choose|i: int| 0 <= i < keys.len() && keys[i] == x;
            assert(table.contains_key(*walk[i].0));
        }
    }
    vstd::seq_lib::seq_to_set_is_finite(keys);
    lemma_subset_equality(keys.to_set(), table.dom());
}

/// The sum of the shares of a table.
pub fn sum_shares<const MOD: usize>(shares: &HashMap<u16, ModInt<MOD>>) -> (r: ModInt<MOD>)
    requires
        MOD > 0,
    ensures
        r@ == reduce(Reduction::Sum, share_values(shares@)) % (MOD as int),
{
    broadcast use vstd::std_specs::hash::group_hash_axioms;

    let ghost m: int = MOD as int;
    let ghost walk = spec_hash_map_iter(shares).remaining();
    let ghost keys: Seq<u16> = Seq::empty();
    let ghost vals: Seq<int> = Seq::empty();
    let mut acc: ModInt<MOD> = ModInt::zero();
    proof {
        lemma_small_mod(0, m as nat);
    }
    for (k, v) in it: shares.iter()
        invariant
            m == MOD as int,
            m > 0,
            walk == spec_hash_map_iter(shares).remaining(),
            it.seq() == walk,
            it.seq().no_duplicates(),
            keys.len() == it.index(),
            vals.len() == it.index(),
            forall|i: int| 0 <= i < keys.len() ==> #[trigger] keys[i] == *it.seq()[i].0,
            forall|i: int| 0 <= i < vals.len() ==> #[trigger] vals[i] == (*it.seq()[i].1)@,
            acc@ == reduce_seq(Reduction::Sum, vals) % m,
    {
        let ghost before: int = acc@;
        acc = acc + *v;
        proof {
            let grown = vals.push(v@);
            assert(grown.drop_last() =~= vals);
            lemma_add_mod_noop_right(v@, reduce_seq(Reduction::Sum, vals), m);
            keys = keys.push(*k);
            vals = grown;
        }
    }
    proof {
        lemma_walk_lists_table(shares@, walk, keys);
        lemma_reduce_listing(Reduction::Sum, share_values(shares@), keys, vals);
    }
    acc
}

/// The product of the shares of a table.
pub fn product_shares<const MOD: usize>(shares: &HashMap<u16, ModInt<MOD>>) -> (r: ModInt<MOD>)
    requires
        MOD > 0,
    ensures
        r@ == reduce(Reduction::Product, share_values(shares@)) % (MOD as int),
{
    broadcast use vstd::std_specs::hash::group_hash_axioms;

    let ghost m: int = MOD as int;
    let ghost walk = spec_hash_map_iter(shares).remaining();
    let ghost keys: Seq<u16> = Seq::empty();
    let ghost vals: Seq<int> = Seq::empty();
    let mut acc: ModInt<MOD> = ModInt::one();
    for (k, v) in it: shares.iter()
        invariant
            m == MOD as int,
            m > 0,
            walk == spec_hash_map_iter(shares).remaining(),
            it.seq() == walk,
            it.seq().no_duplicates(),
            keys.len() == it.index(),
            vals.len() == it.index(),
            forall|i: int| 0 <= i < keys.len() ==> #[trigger] keys[i] == *it.seq()[i].0,
            forall|i: int| 0 <= i < vals.len() ==> #[trigger] vals[i] == (*it.seq()[i].1)@,
            acc@ == reduce_seq(Reduction::Product, vals) % m,
    {
        acc = acc * *v;
        proof {
            let grown = vals.push(v@);
            assert(grown.drop_last() =~= vals);
            lemma_mul_mod_both(reduce_seq(Reduction::Product, vals), v@, m);
            keys = keys.push(*k);
            vals = grown;
        }
    }
    proof {
        lemma_walk_lists_table(shares@, walk, keys);
        lemma_reduce_listing(Reduction::Product, share_values(shares@), keys, vals);
    }
    acc
}

/// The sum of the shares of a table, each multiplied by the weight that
/// `weights` holds for its sender.
pub fn weighted_sum<const MOD: usize>(
    weights: &HashMap<u16, ModInt<MOD>>,
    shares: &HashMap<u16, ModInt<MOD>>,
) -> (r: ModInt<MOD>)
    requires
        MOD > 0,
        shares@.dom().subset_of(weights@.dom()),
    ensures
        r@ == reduce(Reduction::Sum, weighted_values(weights@, shares@)) % (MOD as int),
{
    broadcast use vstd::std_specs::hash::group_hash_axioms;

    let ghost m: int = MOD as int;
    let ghost walk = spec_hash_map_iter(shares).remaining();
    let ghost keys: Seq<u16> = Seq::empty();
    let ghost vals: Seq<int> = Seq::empty();
    let mut acc: ModInt<MOD> = ModInt::zero();
    proof {
        lemma_small_mod(0, m as nat);
    }
    for (k, v) in it: shares.iter()
        invariant
            m == MOD as int,
            m > 0,
            shares@.dom().subset_of(weights@.dom()),
            walk == spec_hash_map_iter(shares).remaining(),
            it.seq() == walk,
            it.seq().no_duplicates(),
            keys.len() == it.index(),
            vals.len() == it.index(),
            forall|i: int| 0 <= i < keys.len() ==> #[trigger] keys[i] == *it.seq()[i].0,
            forall|i: int|
                0 <= i < vals.len() ==> #[trigger] vals[i] == weights@[*it.seq()[i].0]@ * (
                *it.seq()[i].1)@,
            acc@ == reduce_seq(Reduction::Sum, vals) % m,
    {
        assert(shares@.contains_key(*k));
        assert(weights@.dom().contains(*k));
        let w: Option<&ModInt<MOD>> = weights.get(k);
        match w {
            Some(weight) => {
                let term: ModInt<MOD> = *weight * *v;
                acc = acc + term;
                proof {
                    let grown = vals.push(weight@ * v@);
                    assert(grown.drop_last() =~= vals);
                    lemma_add_mod_noop(reduce_seq(Reduction::Sum, vals), weight@ * v@, m);
                    lemma_add_mod_noop(reduce_seq(Reduction::Sum, vals) % m, term@, m);
                    lemma_mod_twice(reduce_seq(Reduction::Sum, vals), m);
                    lemma_mod_twice(weight@ * v@, m);
                    keys = keys.push(*k);
                    vals = grown;
                }
            },
            None => {
                assert(false);
            },
        }
    }
    proof {
        lemma_walk_lists_table(shares@, walk, keys);
        lemma_reduce_listing(Reduction::Sum, weighted_values(weights@, shares@), keys, vals);
    }
    acc
}

/// The identifiers of an interpolation group.
pub open spec fn group_ids<const MOD: usize>(group: Seq<(u16, ModInt<MOD>)>) -> Seq<u16> {
    Seq::new(group.len(), |i: int| group[i].0)
}

/// The representatives of the values that an interpolation group holds.
pub open spec fn group_values<const MOD: usize>(group: Seq<(u16, ModInt<MOD>)>) -> Seq<int> {
    Seq::new(group.len(), |i: int| group[i].1@)
}

/// The value at zero of the polynomial that passes through the points of
/// an interpolation group: each participant's value times its Lagrange
/// weight, summed. Participants that coincide in the field are refused.
pub fn reconstruct<const MOD: usize>(group: &[(u16, ModInt<MOD>)]) -> (r: Result<
    ModInt<MOD>,
    ShareError,
>)
    requires
        MOD > 0,
    ensures
        has_collision(points(group_ids(group@), MOD as int)) <==> r == Err::<
            ModInt<MOD>,
            ShareError,
        >(ShareError::InvalidParticipants),
        !has_collision(points(group_ids(group@), MOD as int)) ==> r.is_ok() && r.unwrap()@
            == interpolate(
            points(group_ids(group@), MOD as int),
            group_values(group@),
            group@.len(),
            MOD as int,
        ) % (MOD as int),
{
    broadcast use vstd::std_specs::hash::group_hash_axioms;

    let ghost m: int = MOD as int;
    let n: usize = group.len();
    let mut ids: Vec<u16> = Vec::with_capacity(n);
    let mut i: usize = 0;
    while i < n
        invariant
            n == group.len(),
            0 <= i <= n,
            ids@ == group_ids(group@).take(i as int),
        decreases n - i,
    {
        ids.push(group[i].0);
        proof {
            assert(ids@ =~= group_ids(group@).take(i + 1));
        }
        i = i + 1;
    }
    proof {
        assert(ids@ =~= group_ids(group@));
    }
    let ghost pts: Seq<int> = points(group_ids(group@), m);
    let ghost vals: Seq<int> = group_values(group@);
    let weights: HashMap<u16, ModInt<MOD>> = match phis(ids.as_slice()) {
        Ok(w) => w,
        Err(e) => {
            return Err(e);
        },
    };
    let mut acc: ModInt<MOD> = ModInt::zero();
    let mut j: usize = 0;
    proof {
        lemma_small_mod(0, m as nat);
    }
    while j < n
        invariant
            m == MOD as int,
            m > 0,
            n == group.len(),
            0 <= j <= n,
            ids@ == group_ids(group@),
            pts == points(group_ids(group@), m),
            vals == group_values(group@),
            weights@.dom() == ids@.to_set(),
            forall|t: int| 0 <= t < n ==> (#[trigger] weights@[ids@[t]])@ == weight(pts, t, m),
            acc@ == interpolate(pts, vals, j as nat, m) % m,
        decreases n - j,
    {
        assert(ids@.contains(ids@[j as int]));
        let w: Option<&ModInt<MOD>> = weights.get(&ids[j]);
        match w {
            Some(wj) => {
                let term: ModInt<MOD> = *wj * group[j].1;
                acc = acc + term;
                proof {
                    let before: int = interpolate(pts, vals, j as nat, m);
                    let t: int = weight(pts, j as int, m) * vals[j as int];
                    assert(wj@ == weights@[ids@[j as int]]@);
                    lemma_add_mod_noop(before, t, m);
                    lemma_add_mod_noop(before % m, term@, m);
                    lemma_mod_twice(before, m);
                    lemma_mod_twice(t, m);
                }
            },
            None => {
                assert(false);
            },
        }
        j = j + 1;
    }
    Ok(acc)
}

} // verus!
