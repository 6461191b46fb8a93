use vstd::prelude::*;

verus! {

/// The two order-independent reductions of a table of shares.
#[derive(Debug, Clone, Copy, PartialEq, Eq, Structural)]
pub enum Reduction {
    Sum,
    Product,
}

/// The value of a reduction over nothing.
pub open spec fn unit(op: Reduction) -> int {
    match op {
        Reduction::Sum => 0,
        Reduction::Product => 1,
    }
}

/// One step of a reduction.
pub open spec fn combine(op: Reduction, a: int, b: int) -> int {
    match op {
        Reduction::Sum => a + b,
        Reduction::Product => a * b,
    }
}

/// The reduction of the entries of `t` whose keys lie below `bound`.
pub open spec fn reduce_below(op: Reduction, t: Map<u16, int>, bound: nat) -> int
    decreases bound,
{
    if bound == 0 {
        unit(op)
    } else {
        let k = (bound - 1) as u16;
        let rest = reduce_below(op, t, (bound - 1) as nat);
        if t.contains_key(k) {
            combine(op, rest, t[k])
        } else {
            rest
        }
    }
}

/// The reduction of all entries of `t`: their sum or their product.
pub open spec fn reduce(op: Reduction, t: Map<u16, int>) -> int {
    reduce_below(op, t, 0x1_0000)
}

/// The reduction of a sequence, from its first element to its last.
pub open spec fn reduce_seq(op: Reduction, vals: Seq<int>) -> int
    decreases vals.len(),
{
    if vals.len() == 0 {
        unit(op)
    } else {
        combine(op, reduce_seq(op, vals.drop_last()), vals.last())
    }
}

/// Two further steps of a reduction may be taken in either order.
pub proof fn lemma_combine_swap(op: Reduction, a: int, b: int, c: int)
    ensures
        combine(op, combine(op, a, b), c) == combine(op, combine(op, a, c), b),
{
    assert((a * b) * c == (a * c) * b) by (nonlinear_arith);
}

/// Taking an entry out of a table takes its value out of the reduction.
pub proof fn lemma_reduce_without(op: Reduction, t: Map<u16, int>, k: u16, bound: nat)
    requires
        t.contains_key(k),
        bound <= 0x1_0000,
    ensures
        reduce_below(op, t, bound) == if k < bound {
            combine(op, reduce_below(op, t.remove(k), bound), t[k])
        } else {
            reduce_below(op, t.remove(k), bound)
        },
    decreases bound,
{
    if bound > 0 {
        let j = (bound - 1) as u16;
        lemma_reduce_without(op, t, k, (bound - 1) as nat);
        let rest = reduce_below(op, t.remove(k), (bound - 1) as nat);
        if j != k && t.contains_key(j) && k < bound {
            lemma_combine_swap(op, rest, t[k], t[j]);
        }
    }
}

/// The reduction of a table without entries is the unit.
pub proof fn lemma_reduce_empty(op: Reduction, t: Map<u16, int>, bound: nat)
    requires
        t.dom() =~= Set::<u16>::empty(),
    ensures
        reduce_below(op, t, bound) == unit(op),
    decreases bound,
{
    if bound > 0 {
        lemma_reduce_empty(op, t, (bound - 1) as nat);
    }
}

/// In whatever order the entries of a table are listed, each once, the
/// reduction of the listing is the reduction of the table.
pub proof fn lemma_reduce_listing(op: Reduction, t: Map<u16, int>, keys: Seq<u16>, vals: Seq<int>)
    requires
        keys.no_duplicates(),
        keys.to_set() =~= t.dom(),
        vals.len() == keys.len(),
        forall|i: int| 0 <= i < keys.len() ==> vals[i] == t[#[trigger] keys[i]],
    ensures
        reduce_seq(op, vals) == reduce(op, t),
    decreases keys.len(),
{
    if keys.len() == 0 {
        assert(t.dom() =~= Set::<u16>::empty());
        lemma_reduce_empty(op, t, 0x1_0000);
    } else {
        let k = keys.last();
        let rest_keys = keys.drop_last();
        let rest = t.remove(k);
        assert(keys[keys.len() - 1] == k);
        assert(t.dom().contains(k));
        assert(rest_keys.to_set() =~= rest.dom()) by {
            assert forall|x: u16| rest_keys.to_set().contains(x) == rest.dom().contains(x) by {
                if rest_keys.contains(x) {
                    let i = choose|i: int| 0 <= i < rest_keys.len() && rest_keys[i] == x;
                    assert(keys[i] == x);
                    assert(keys.contains(x));
                }
                if rest.dom().contains(x) {
                    assert(keys.to_set().contains(x));
                    let i = choose|i: int| 0 <= i < keys.len() && keys[i] == x;
                    assert(rest_keys[i] == x);
                }
            }
        }
        assert forall|i: int| 0 <= i < rest_keys.len() implies vals.drop_last()[i]
            == rest[#[trigger] rest_keys[i]] by {
            assert(keys[i] == rest_keys[i]);
        }
        lemma_reduce_listing(op, rest, rest_keys, vals.drop_last());
        lemma_reduce_without(op, t, k, 0x1_0000);
    }
}

/// The reduction of a table of two entries combines the two.
pub proof fn lemma_reduce_two(op: Reduction, t: Map<u16, int>, a: u16, b: u16)
    requires
        a != b,
        t.dom() =~= set![a, b],
    ensures
        reduce(op, t) == combine(op, t[a], t[b]),
{
    let keys = seq![a, b];
    let vals = seq![t[a], t[b]];
    assert(keys.to_set() =~= t.dom()) by {
        assert(keys[0] == a && keys[1] == b);
        assert forall|x: u16| keys.to_set().contains(x) == t.dom().contains(x) by {
            if x == a {
                assert(keys[0] == x);
            }
            if x == b {
                assert(keys[1] == x);
            }
        }
    }
    lemma_reduce_listing(op, t, keys, vals);
    reveal_with_fuel(reduce_seq, 3);
    assert(vals.drop_last() =~= seq![t[a]]);
    assert(vals.drop_last().drop_last() =~= Seq::<int>::empty());
    assert(combine(op, unit(op), t[a]) == t[a]) by {
        assert(1 * t[a] == t[a]);
    }
}

/// The reduction of a table of three entries combines the three.
pub proof fn lemma_reduce_three(op: Reduction, t: Map<u16, int>, a: u16, b: u16, c: u16)
    requires
        a != b,
        a != c,
        b != c,
        t.dom() =~= set![a, b, c],
    ensures
        reduce(op, t) == combine(op, combine(op, t[a], t[b]), t[c]),
{
    let keys = seq![a, b, c];
    let vals = seq![t[a], t[b], t[c]];
    assert(keys.to_set() =~= t.dom()) by {
        assert(keys[0] == a && keys[1] == b && keys[2] == c);
        assert forall|x: u16| keys.to_set().contains(x) == t.dom().contains(x) by {
            if x == a {
                assert(keys[0] == x);
            }
            if x == b {
                assert(keys[1] == x);
            }
            if x == c {
                assert(keys[2] == x);
            }
        }
    }
    lemma_reduce_listing(op, t, keys, vals);
    reveal_with_fuel(reduce_seq, 4);
    assert(vals.drop_last() =~= seq![t[a], t[b]]);
    assert(vals.drop_last().drop_last() =~= seq![t[a]]);
    assert(vals.drop_last().drop_last().drop_last() =~= Seq::<int>::empty());
    assert(combine(op, unit(op), t[a]) == t[a]) by {
        assert(1 * t[a] == t[a]);
    }
}

} // verus!
