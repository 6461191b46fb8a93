use vstd::prelude::*;
use vstd::arithmetic::div_mod::*;
use vstd::arithmetic::power::*;
use std::collections::HashMap;
use crate::arith::eval;
use crate::arith::is_prime;
use crate::arith::lemma_mul_mod_both;
use crate::error::ShareError;
use crate::field::ModInt;
use crate::fold::Reduction;
use crate::fold::lemma_reduce_three;
use crate::fold::lemma_reduce_two;
use crate::fold::reduce;
use crate::interpolation::distinct_points;
use crate::interpolation::evaluations;
use crate::interpolation::lemma_interpolation;
use crate::lagrange::has_collision;
use crate::lagrange::interpolate;
use crate::lagrange::phis;
use crate::lagrange::points;
use crate::lagrange::weight;
use crate::player::Player;
use crate::player::sharing_poly;
use crate::player::values;
use crate::protocol::group_ids;
use crate::protocol::group_values;
use crate::protocol::product_shares;
use crate::protocol::reconstruct;
use crate::protocol::share_values;
use crate::protocol::sum_shares;
use crate::protocol::weighted_sum;
use crate::protocol::weighted_values;

verus! {

/// The three participants of a session at its end, and the value that each
/// pair of them reconstructs.
pub struct Outcome<const MOD: usize> {
    pub player1: Player<MOD>,
    pub player2: Player<MOD>,
    pub player3: Player<MOD>,
    pub by_1_and_2: ModInt<MOD>,
    pub by_1_and_3: ModInt<MOD>,
    pub by_2_and_3: ModInt<MOD>,
}

/// The identifiers `a` and `b` name the same point of the field.
pub open spec fn coincide(a: u16, b: u16, m: int) -> bool {
    a as int % m == b as int % m
}

/// Two of the identifiers `a`, `b` and `c` name the same point of the field.
pub open spec fn two_coincide(a: u16, b: u16, c: u16, m: int) -> bool {
    coincide(a, b, m) || coincide(a, c, m) || coincide(b, c, m)
}

/// What a pair of participants reconstructs from the values `fa` and `fb`
/// that they hold at the points `xa` and `xb`.
pub open spec fn pair_value(xa: int, fa: int, xb: int, fb: int, m: int) -> int {
    interpolate(seq![xa, xb], seq![fa, fb], 2, m) % m
}

/// The participant `now` is `before` after a session in which `dealer1`
/// and `dealer2` shared their secrets with threshold two and every
/// participant summed what it received.
pub open spec fn holds_sum<const MOD: usize>(
    now: Player<MOD>,
    before: Player<MOD>,
    dealer1: Player<MOD>,
    dealer2: Player<MOD>,
) -> bool {
    &&& now.id == before.id
    &&& now.secret == before.secret
    &&& now.rands == before.rands
    &&& share_values(now.shares@) =~= map![
        dealer1.id => dealer1.dealt(2, before.point()),
        dealer2.id => dealer2.dealt(2, before.point()),
    ]
    &&& now.folded_share@ == (dealer1.dealt(2, before.point()) + dealer2.dealt(
        2,
        before.point(),
    )) % (MOD as int)
}

/// A group of two collides exactly if its two identifiers coincide.
pub proof fn lemma_pair_collision<const MOD: usize>(
    group: Seq<(u16, ModInt<MOD>)>,
    a: u16,
    b: u16,
)
    requires
        group.len() == 2,
        group[0].0 == a,
        group[1].0 == b,
    ensures
        has_collision(points(group_ids(group), MOD as int)) <==> coincide(a, b, MOD as int),
        points(group_ids(group), MOD as int) =~= seq![
            a as int % (MOD as int),
            b as int % (MOD as int),
        ],
        group_values(group) =~= seq![group[0].1@, group[1].1@],
{
    let pts = points(group_ids(group), MOD as int);
    if coincide(a, b, MOD as int) {
        assert(pts[0] == pts[1]);
    }
}

/// The value that the pair of `a` and `b` reconstructs from what they
/// hold, unless the two coincide.
fn pair_reconstruct<const MOD: usize>(a: &Player<MOD>, b: &Player<MOD>) -> (r: Result<
    ModInt<MOD>,
    ShareError,
>)
    requires
        MOD > 0,
    ensures
        coincide(a.id, b.id, MOD as int) <==> r == Err::<ModInt<MOD>, ShareError>(
            ShareError::InvalidParticipants,
        ),
        !coincide(a.id, b.id, MOD as int) ==> r.is_ok() && r.unwrap()@ == pair_value(
            a.point(),
            a.folded_share@,
            b.point(),
            b.folded_share@,
            MOD as int,
        ),
{
    let mut group: Vec<(u16, ModInt<MOD>)> = Vec::with_capacity(2);
    group.push((a.id, a.folded_share));
    group.push((b.id, b.folded_share));
    proof {
        lemma_pair_collision(group@, a.id, b.id);
    }
    reconstruct(group.as_slice())
}

/// A polynomial of two coefficients is a line.
pub proof fn lemma_eval_line(s: int, r: int, x: int)
    ensures
        eval(seq![s, r], x) == s + r * x,
{
    let c = seq![s, r];
    reveal_with_fuel(eval, 3);
    assert(c.drop_last() =~= seq![s]);
    assert(c.drop_last().drop_last() =~= Seq::<int>::empty());
    lemma_pow0(x);
    lemma_pow1(x);
    assert(s * 1 == s);
}

/// With threshold two a participant deals the values of the line through
/// its secret with its first random element as slope.
pub proof fn lemma_dealt_line<const MOD: usize>(p: Player<MOD>, x: int)
    requires
        p.rands@.len() >= 1,
    ensures
        p.dealt(2, x) == (p.secret@ + p.rands@[0]@ * x) % (MOD as int),
{
    let c = values(sharing_poly(p.secret, p.rands@, 2));
    assert(c =~= seq![p.secret@, p.rands@[0]@]);
    lemma_eval_line(p.secret@, p.rands@[0]@, x);
}

/// Two participants at distinct points of a prime field, each holding the
/// value of one line at its point, reconstruct the line's value at zero.
pub proof fn lemma_pair_recovers(xa: int, xb: int, s: int, r: int, m: int)
    requires
        is_prime(m),
        0 <= xa < m,
        0 <= xb < m,
        xa != xb,
    ensures
        pair_value(xa, (s + r * xa) % m, xb, (s + r * xb) % m, m) == s % m,
{
    let pts = seq![xa, xb];
    let c = seq![s, r];
    assert(distinct_points(pts, m)) by {
        if has_collision(pts) {
            let (i, j) = choose|i: int, j: int|
                0 <= i < pts.len() && 0 <= j < pts.len() && i != j && pts[i] == pts[j];
            assert(false);
        }
    }
    lemma_eval_line(s, r, xa);
    lemma_eval_line(s, r, xb);
    assert(evaluations(c, pts, m) =~= seq![(s + r * xa) % m, (s + r * xb) % m]);
    lemma_interpolation(pts, c, m);
}

/// In a prime field, with no two participants at one point, every pair of
/// an addition session reconstructs the sum of the two secrets.
pub proof fn lemma_addition_recovers_sum<const MOD: usize>(
    dealer1: Player<MOD>,
    dealer2: Player<MOD>,
    a: Player<MOD>,
    b: Player<MOD>,
    fa: int,
    fb: int,
)
    requires
        is_prime(MOD as int),
        !coincide(a.id, b.id, MOD as int),
        dealer1.rands@.len() >= 1,
        dealer2.rands@.len() >= 1,
        fa == (dealer1.dealt(2, a.point()) + dealer2.dealt(2, a.point())) % (MOD as int),
        fb == (dealer1.dealt(2, b.point()) + dealer2.dealt(2, b.point())) % (MOD as int),
    ensures
        pair_value(a.point(), fa, b.point(), fb, MOD as int) == (dealer1.secret@
            + dealer2.secret@) % (MOD as int),
{
    let m = MOD as int;
    let s = dealer1.secret@ + dealer2.secret@;
    let r = dealer1.rands@[0]@ + dealer2.rands@[0]@;
    assert forall|x: int|
        (#[trigger] dealer1.dealt(2, x) + dealer2.dealt(2, x)) % m == (s + r * x) % m by {
        lemma_dealt_line(dealer1, x);
        lemma_dealt_line(dealer2, x);
        lemma_add_mod_noop(
            dealer1.secret@ + dealer1.rands@[0]@ * x,
            dealer2.secret@ + dealer2.rands@[0]@ * x,
            m,
        );
        assert((dealer1.secret@ + dealer1.rands@[0]@ * x) + (dealer2.secret@
            + dealer2.rands@[0]@ * x) == s + r * x) by (nonlinear_arith)
            requires
                s == dealer1.secret@ + dealer2.secret@,
                r == dealer1.rands@[0]@ + dealer2.rands@[0]@,
        ;
    }
    lemma_mod_bound(a.id as int, m);
    lemma_mod_bound(b.id as int, m);
    lemma_pair_recovers(a.point(), b.point(), s, r, m);
}

/// A session of additive sharing among three participants with threshold
/// two: the first two share their secrets with all three, every
/// participant sums what it received, and each pair reconstructs.
pub fn add_simulation<const MOD: usize>(
    player1: Player<MOD>,
    player2: Player<MOD>,
    player3: Player<MOD>,
) -> (r: Result<Outcome<MOD>, ShareError>)
    requires
        player1.is_created(),
        player2.is_created(),
        player3.is_created(),
        player1.rands.len() >= 1,
        player2.rands.len() >= 1,
    ensures
        two_coincide(player1.id, player2.id, player3.id, MOD as int) <==> r == Err::<
            Outcome<MOD>,
            ShareError,
        >(ShareError::InvalidParticipants),
        !two_coincide(player1.id, player2.id, player3.id, MOD as int) ==> r.is_ok(),
        r.is_ok() ==> {
            let out = r.unwrap();
            &&& holds_sum(out.player1, player1, player1, player2)
            &&& holds_sum(out.player2, player2, player1, player2)
            &&& holds_sum(out.player3, player3, player1, player2)
            &&& out.player1.poly.is_some() && out.player1.poly.unwrap()@ == sharing_poly(
                player1.secret,
                player1.rands@,
                2,
            )
            &&& out.player2.poly.is_some() && out.player2.poly.unwrap()@ == sharing_poly(
                player2.secret,
                player2.rands@,
                2,
            )
            &&& out.player3.poly.is_none()
            &&& out.by_1_and_2@ == pair_value(
                player1.point(),
                out.player1.folded_share@,
                player2.point(),
                out.player2.folded_share@,
                MOD as int,
            )
            &&& out.by_1_and_3@ == pair_value(
                player1.point(),
                out.player1.folded_share@,
                player3.point(),
                out.player3.folded_share@,
                MOD as int,
            )
            &&& out.by_2_and_3@ == pair_value(
                player2.point(),
                out.player2.folded_share@,
                player3.point(),
                out.player3.folded_share@,
                MOD as int,
            )
        },
        r.is_ok() && is_prime(MOD as int) ==> {
            let out = r.unwrap();
            let sum = (player1.secret@ + player2.secret@) % (MOD as int);
            out.by_1_and_2@ == sum && out.by_1_and_3@ == sum && out.by_2_and_3@ == sum
        },
{
    let ghost m: int = MOD as int;
    let ghost before1 = player1;
    let ghost before2 = player2;
    let ghost before3 = player3;
    let mut player1 = player1;
    let mut player2 = player2;
    let mut player3 = player3;
    proof {
        use_type_invariant(player1.secret);
        player1.secret.lemma_reduced();
    }
    player1.make_poly(2);
    player2.make_poly(2);
    player1.recieve_share(&player2)?;
    player2.recieve_share(&player1)?;
    player3.recieve_share(&player1)?;
    player3.recieve_share(&player2)?;
    player1.fold_share(sum_shares::<MOD>)?;
    player2.fold_share(sum_shares::<MOD>)?;
    player3.fold_share(sum_shares::<MOD>)?;
    let by_1_and_2 = pair_reconstruct(&player1, &player2)?;
    let by_1_and_3 = pair_reconstruct(&player1, &player3)?;
    let by_2_and_3 = pair_reconstruct(&player2, &player3)?;
    proof {
        let a = before1.id;
        let b = before2.id;
        assert(a != b);
        lemma_reduce_two(Reduction::Sum, share_values(player1.shares@), a, b);
        lemma_reduce_two(Reduction::Sum, share_values(player2.shares@), a, b);
        lemma_reduce_two(Reduction::Sum, share_values(player3.shares@), a, b);
        if is_prime(m) {
            let f1 = player1.folded_share@;
            let f2 = player2.folded_share@;
            let f3 = player3.folded_share@;
            lemma_addition_recovers_sum(before1, before2, before1, before2, f1, f2);
            lemma_addition_recovers_sum(before1, before2, before1, before3, f1, f3);
            lemma_addition_recovers_sum(before1, before2, before2, before3, f2, f3);
        }
    }
    Ok(Outcome { player1, player2, player3, by_1_and_2, by_1_and_3, by_2_and_3 })
}

/// The participants of a multiplication session: the three that shared the
/// factors, and the three that reshared the local products, with the value
/// that each pair of the latter reconstructs.
pub struct ProductOutcome<const MOD: usize> {
    pub player1: Player<MOD>,
    pub player2: Player<MOD>,
    pub player3: Player<MOD>,
    pub reshared: Outcome<MOD>,
}

/// The participant `now` is `before` after a session in which `dealer1`
/// and `dealer2` shared their secrets with threshold two and every
/// participant multiplied what it received.
pub open spec fn holds_product<const MOD: usize>(
    now: Player<MOD>,
    before: Player<MOD>,
    dealer1: Player<MOD>,
    dealer2: Player<MOD>,
) -> bool {
    &&& now.id == before.id
    &&& now.secret == before.secret
    &&& now.rands == before.rands
    &&& share_values(now.shares@) =~= map![
        dealer1.id => dealer1.dealt(2, before.point()),
        dealer2.id => dealer2.dealt(2, before.point()),
    ]
    &&& now.folded_share@ == (dealer1.dealt(2, before.point()) * dealer2.dealt(
        2,
        before.point(),
    )) % (MOD as int)
}

/// The points of three participants.
pub open spec fn three_points<const MOD: usize>(a: Player<MOD>, b: Player<MOD>, c: Player<MOD>) -> Seq<
    int,
> {
    seq![a.point(), b.point(), c.point()]
}

/// The participant `now` took the local product `product` for its secret
/// and `fresh` for its one random element, made its polynomial, received
/// the shares of all three resharing participants, and combined them with
/// the Lagrange weights of their senders.
pub open spec fn holds_reshared<const MOD: usize>(
    now: Player<MOD>,
    id: u16,
    product: int,
    fresh: u16,
    dealer1: Player<MOD>,
    dealer2: Player<MOD>,
    dealer3: Player<MOD>,
) -> bool {
    let m = MOD as int;
    let pts = three_points(dealer1, dealer2, dealer3);
    &&& now.id == id
    &&& now.secret@ == product
    &&& now.rands@.len() == 1
    &&& now.rands@[0]@ == fresh as int % m
    &&& now.poly.is_some()
    &&& now.poly.unwrap()@ == sharing_poly(now.secret, now.rands@, 2)
    &&& share_values(now.shares@) =~= map![
        dealer1.id => dealer1.dealt(2, now.point()),
        dealer2.id => dealer2.dealt(2, now.point()),
        dealer3.id => dealer3.dealt(2, now.point()),
    ]
    &&& now.folded_share@ == (weight(pts, 0, m) * dealer1.dealt(2, now.point()) + weight(
        pts,
        1,
        m,
    ) * dealer2.dealt(2, now.point()) + weight(pts, 2, m) * dealer3.dealt(2, now.point())) % m
}

/// A group of three collides exactly if two of its identifiers coincide.
pub proof fn lemma_triple_collision(a: u16, b: u16, c: u16, m: int)
    ensures
        has_collision(points(seq![a, b, c], m)) <==> (coincide(a, b, m) || coincide(a, c, m)
            || coincide(b, c, m)),
        points(seq![a, b, c], m) =~= seq![a as int % m, b as int % m, c as int % m],
{
    let pts = points(seq![a, b, c], m);
    if coincide(a, b, m) {
        assert(pts[0] == pts[1]);
    }
    if coincide(a, c, m) {
        assert(pts[0] == pts[2]);
    }
    if coincide(b, c, m) {
        assert(pts[1] == pts[2]);
    }
}

/// A polynomial of three coefficients is a parabola.
pub proof fn lemma_eval_parabola(c0: int, c1: int, c2: int, x: int)
    ensures
        eval(seq![c0, c1, c2], x) == c0 + c1 * x + c2 * (x * x),
{
    let c = seq![c0, c1, c2];
    assert(c.drop_last() =~= seq![c0, c1]);
    lemma_eval_line(c0, c1, x);
    lemma_pow_adds(x, 1, 1);
    lemma_pow1(x);
}

/// A weight times the value of a line.
proof fn lemma_weighted_line(w: int, z: int, f: int, x: int)
    ensures
        w * (z + f * x) == w * z + (w * f) * x,
{
    assert(w * (z + f * x) == w * z + (w * f) * x) by (nonlinear_arith);
}

/// What a participant at the point `x` holds after the resharing round:
/// the values at `x` of the three lines through the local products `z`
/// with the slopes `fresh`, combined with the weights of the three points.
pub open spec fn recombined(pts: Seq<int>, z: Seq<int>, fresh: Seq<int>, x: int, m: int) -> int {
    (weight(pts, 0, m) * ((z[0] + fresh[0] * x) % m) + weight(pts, 1, m) * ((z[1] + fresh[1] * x)
        % m) + weight(pts, 2, m) * ((z[2] + fresh[2] * x) % m)) % m
}

/// Resharing reduces the degree: where the local products of three
/// participants at distinct points of a prime field are the values of one
/// polynomial of at most three coefficients, any two of them reconstruct
/// that polynomial's value at zero from what they hold after resharing,
/// whatever the fresh slopes.
pub proof fn lemma_resharing_recovers(
    pts: Seq<int>,
    z: Seq<int>,
    fresh: Seq<int>,
    c: Seq<int>,
    a: int,
    b: int,
    m: int,
)
    requires
        is_prime(m),
        distinct_points(pts, m),
        pts.len() == 3,
        z.len() == 3,
        fresh.len() == 3,
        1 <= c.len() <= 3,
        forall|i: int| 0 <= i < 3 ==> z[i] == eval(c, #[trigger] pts[i]) % m,
        0 <= a < 3,
        0 <= b < 3,
        a != b,
    ensures
        pair_value(
            pts[a],
            recombined(pts, z, fresh, pts[a], m),
            pts[b],
            recombined(pts, z, fresh, pts[b], m),
            m,
        ) == c[0] % m,
{
    let w0 = weight(pts, 0, m);
    let w1 = weight(pts, 1, m);
    let w2 = weight(pts, 2, m);
    let s: int = w0 * z[0] + w1 * z[1] + w2 * z[2];
    let r: int = w0 * fresh[0] + w1 * fresh[1] + w2 * fresh[2];
    // the constant term of the recombined line is the interpolation of z
    assert(s == interpolate(pts, z, 3, m)) by {
        reveal_with_fuel(interpolate, 4);
    }
    assert(z =~= evaluations(c, pts, m));
    lemma_interpolation(pts, c, m);
    // each participant holds a value of the line s + r * x
    assert forall|x: int| #[trigger] recombined(pts, z, fresh, x, m) == (s + r * x) % m by {
        let t0 = z[0] + fresh[0] * x;
        let t1 = z[1] + fresh[1] * x;
        let t2 = z[2] + fresh[2] * x;
        lemma_mul_mod_both(w0, t0, m);
        lemma_mul_mod_both(w1, t1, m);
        lemma_mul_mod_both(w2, t2, m);
        lemma_add_mod_noop(w0 * (t0 % m), w1 * (t1 % m), m);
        lemma_add_mod_noop(w0 * t0, w1 * t1, m);
        lemma_add_mod_noop(w0 * (t0 % m) + w1 * (t1 % m), w2 * (t2 % m), m);
        lemma_add_mod_noop(w0 * t0 + w1 * t1, w2 * t2, m);
        lemma_weighted_line(w0, z[0], fresh[0], x);
        lemma_weighted_line(w1, z[1], fresh[1], x);
        lemma_weighted_line(w2, z[2], fresh[2], x);
        assert(r * x == (w0 * fresh[0]) * x + (w1 * fresh[1]) * x + (w2 * fresh[2]) * x)
            by (nonlinear_arith)
            requires
                r == w0 * fresh[0] + w1 * fresh[1] + w2 * fresh[2],
        ;
    }
    assert(pts[a] != pts[b]) by {
        if pts[a] == pts[b] {
            assert(has_collision(pts));
        }
    }
    lemma_pair_recovers(pts[a], pts[b], s, r, m);
}

/// The coefficients of the product of the lines that two participants
/// deal with threshold two.
pub open spec fn product_line<const MOD: usize>(dealer1: Player<MOD>, dealer2: Player<MOD>) -> Seq<
    int,
> {
    seq![
        dealer1.secret@ * dealer2.secret@,
        dealer1.secret@ * dealer2.rands@[0]@ + dealer1.rands@[0]@ * dealer2.secret@,
        dealer1.rands@[0]@ * dealer2.rands@[0]@,
    ]
}

/// The product of the shares that two participants deal with threshold
/// two is a value of the product of their two lines, a parabola through
/// the product of the secrets.
pub proof fn lemma_local_product<const MOD: usize>(
    dealer1: Player<MOD>,
    dealer2: Player<MOD>,
    x: int,
)
    requires
        MOD > 0,
        dealer1.rands@.len() >= 1,
        dealer2.rands@.len() >= 1,
    ensures
        (dealer1.dealt(2, x) * dealer2.dealt(2, x)) % (MOD as int) == eval(
            product_line(dealer1, dealer2),
            x,
        ) % (MOD as int),
{
    let m = MOD as int;
    let s1 = dealer1.secret@;
    let r1 = dealer1.rands@[0]@;
    let s2 = dealer2.secret@;
    let r2 = dealer2.rands@[0]@;
    lemma_dealt_line(dealer1, x);
    lemma_dealt_line(dealer2, x);
    lemma_mul_mod_both(s1 + r1 * x, s2 + r2 * x, m);
    lemma_eval_parabola(s1 * s2, s1 * r2 + r1 * s2, r1 * r2, x);
    let u: int = s2 + r2 * x;
    assert((s1 + r1 * x) * u == s1 * u + (r1 * x) * u) by (nonlinear_arith);
    assert(s1 * u == s1 * s2 + (s1 * r2) * x) by (nonlinear_arith)
        requires
            u == s2 + r2 * x,
    ;
    assert((r1 * x) * u == (r1 * s2) * x + (r1 * r2) * (x * x)) by (nonlinear_arith)
        requires
            u == s2 + r2 * x,
    ;
    assert((s1 * r2) * x + (r1 * s2) * x == (s1 * r2 + r1 * s2) * x) by (nonlinear_arith);
}

/// A session of multiplication among three participants with threshold
/// two; three is the least number of participants that this threshold
/// admits, one less than twice the threshold. The first two share the
/// factors with all three and every
/// participant multiplies what it received. Each then reshares its local
/// product, with `fresh1`, `fresh2` and `fresh3` as the new random
/// elements, and combines what it receives with the Lagrange weights of
/// the three; each pair reconstructs from the results.
pub fn mul_simulation<const MOD: usize>(
    player1: Player<MOD>,
    player2: Player<MOD>,
    player3: Player<MOD>,
    fresh1: u16,
    fresh2: u16,
    fresh3: u16,
) -> (r: Result<ProductOutcome<MOD>, ShareError>)
    requires
        player1.is_created(),
        player2.is_created(),
        player3.is_created(),
        player1.rands.len() >= 1,
        player2.rands.len() >= 1,
    ensures
        two_coincide(player1.id, player2.id, player3.id, MOD as int) <==> r == Err::<
            ProductOutcome<MOD>,
            ShareError,
        >(ShareError::InvalidParticipants),
        !two_coincide(player1.id, player2.id, player3.id, MOD as int) ==> r.is_ok(),
        r.is_ok() ==> {
            let out = r.unwrap();
            let re = out.reshared;
            &&& holds_product(out.player1, player1, player1, player2)
            &&& holds_product(out.player2, player2, player1, player2)
            &&& holds_product(out.player3, player3, player1, player2)
            &&& holds_reshared(
                re.player1,
                player1.id,
                out.player1.folded_share@,
                fresh1,
                re.player1,
                re.player2,
                re.player3,
            )
            &&& holds_reshared(
                re.player2,
                player2.id,
                out.player2.folded_share@,
                fresh2,
                re.player1,
                re.player2,
                re.player3,
            )
            &&& holds_reshared(
                re.player3,
                player3.id,
                out.player3.folded_share@,
                fresh3,
                re.player1,
                re.player2,
                re.player3,
            )
            &&& re.by_1_and_2@ == pair_value(
                player1.point(),
                re.player1.folded_share@,
                player2.point(),
                re.player2.folded_share@,
                MOD as int,
            )
            &&& re.by_1_and_3@ == pair_value(
                player1.point(),
                re.player1.folded_share@,
                player3.point(),
                re.player3.folded_share@,
                MOD as int,
            )
            &&& re.by_2_and_3@ == pair_value(
                player2.point(),
                re.player2.folded_share@,
                player3.point(),
                re.player3.folded_share@,
                MOD as int,
            )
        },
        r.is_ok() && is_prime(MOD as int) ==> {
            let re = r.unwrap().reshared;
            let product = (player1.secret@ * player2.secret@) % (MOD as int);
            re.by_1_and_2@ == product && re.by_1_and_3@ == product && re.by_2_and_3@ == product
        },
{
    broadcast use vstd::std_specs::hash::group_hash_axioms;

    let ghost m: int = MOD as int;
    let ghost before1 = player1;
    let ghost before2 = player2;
    let ghost before3 = player3;
    let mut player1 = player1;
    let mut player2 = player2;
    let mut player3 = player3;
    proof {
        use_type_invariant(player1.secret);
        player1.secret.lemma_reduced();
        lemma_triple_collision(player1.id, player2.id, player3.id, m);
    }
    let mut ids: Vec<u16> = Vec::with_capacity(3);
    ids.push(player1.id);
    ids.push(player2.id);
    ids.push(player3.id);
    proof {
        assert(ids@ =~= seq![before1.id, before2.id, before3.id]);
    }
    let phs123: HashMap<u16, ModInt<MOD>> = phis(ids.as_slice())?;
    let ghost pts: Seq<int> = points(ids@, m);
    proof {
        assert(before1.id != before2.id && before1.id != before3.id && before2.id != before3.id);
        assert(ids@[0] == before1.id && ids@[1] == before2.id && ids@[2] == before3.id);
        assert(phs123@[ids@[0]]@ == weight(pts, 0, m));
        assert(phs123@[ids@[1]]@ == weight(pts, 1, m));
        assert(phs123@[ids@[2]]@ == weight(pts, 2, m));
        assert(ids@.to_set().contains(ids@[0]));
        assert(ids@.to_set().contains(ids@[1]));
        assert(ids@.to_set().contains(ids@[2]));
    }

    player1.make_poly(2);
    player2.make_poly(2);
    player1.recieve_share(&player2)?;
    player2.recieve_share(&player1)?;
    player3.recieve_share(&player1)?;
    player3.recieve_share(&player2)?;
    player1.fold_share(product_shares::<MOD>)?;
    player2.fold_share(product_shares::<MOD>)?;
    player3.fold_share(product_shares::<MOD>)?;
    proof {
        let a = before1.id;
        let b = before2.id;
        lemma_reduce_two(Reduction::Product, share_values(player1.shares@), a, b);
        lemma_reduce_two(Reduction::Product, share_values(player2.shares@), a, b);
        lemma_reduce_two(Reduction::Product, share_values(player3.shares@), a, b);
    }

    let mut player1_m = Player::new(
        player1.id,
        player1.folded_share,
        vec![ModInt::new(fresh1 as usize)],
    );
    let mut player2_m = Player::new(
        player2.id,
        player2.folded_share,
        vec![ModInt::new(fresh2 as usize)],
    );
    let mut player3_m = Player::new(
        player3.id,
        player3.folded_share,
        vec![ModInt::new(fresh3 as usize)],
    );
    player1_m.make_poly(2);
    player2_m.make_poly(2);
    player3_m.make_poly(2);
    player1_m.recieve_share(&player2_m)?;
    player1_m.recieve_share(&player3_m)?;
    player2_m.recieve_share(&player1_m)?;
    player2_m.recieve_share(&player3_m)?;
    player3_m.recieve_share(&player1_m)?;
    player3_m.recieve_share(&player2_m)?;

    let combine1 = |s: &HashMap<u16, ModInt<MOD>>| -> (v: ModInt<MOD>)
        requires
            MOD > 0,
            s@.dom().subset_of(phs123@.dom()),
        ensures
            v@ == reduce(Reduction::Sum, weighted_values(phs123@, s@)) % (MOD as int),
        { weighted_sum(&phs123, s) };
    let combine2 = |s: &HashMap<u16, ModInt<MOD>>| -> (v: ModInt<MOD>)
        requires
            MOD > 0,
            s@.dom().subset_of(phs123@.dom()),
        ensures
            v@ == reduce(Reduction::Sum, weighted_values(phs123@, s@)) % (MOD as int),
        { weighted_sum(&phs123, s) };
    let combine3 = |s: &HashMap<u16, ModInt<MOD>>| -> (v: ModInt<MOD>)
        requires
            MOD > 0,
            s@.dom().subset_of(phs123@.dom()),
        ensures
            v@ == reduce(Reduction::Sum, weighted_values(phs123@, s@)) % (MOD as int),
        { weighted_sum(&phs123, s) };
    player1_m.fold_share(combine1)?;
    player2_m.fold_share(combine2)?;
    player3_m.fold_share(combine3)?;
    proof {
        let a = before1.id;
        let b = before2.id;
        let c = before3.id;
        lemma_reduce_three(
            Reduction::Sum,
            weighted_values(phs123@, player1_m.shares@),
            a,
            b,
            c,
        );
        lemma_reduce_three(
            Reduction::Sum,
            weighted_values(phs123@, player2_m.shares@),
            a,
            b,
            c,
        );
        lemma_reduce_three(
            Reduction::Sum,
            weighted_values(phs123@, player3_m.shares@),
            a,
            b,
            c,
        );
        assert(pts =~= three_points(player1_m, player2_m, player3_m));
    }
    let by_1_and_2 = pair_reconstruct(&player1_m, &player2_m)?;
    let by_1_and_3 = pair_reconstruct(&player1_m, &player3_m)?;
    let by_2_and_3 = pair_reconstruct(&player2_m, &player3_m)?;
    proof {
        if is_prime(m) {
            let z = seq![
                player1.folded_share@,
                player2.folded_share@,
                player3.folded_share@,
            ];
            let fresh = seq![
                player1_m.rands@[0]@,
                player2_m.rands@[0]@,
                player3_m.rands@[0]@,
            ];
            let c = product_line(before1, before2);
            lemma_mod_bound(before1.id as int, m);
            lemma_mod_bound(before2.id as int, m);
            lemma_mod_bound(before3.id as int, m);
            assert(distinct_points(pts, m));
            assert forall|i: int| 0 <= i < 3 implies z[i] == eval(c, #[trigger] pts[i]) % m by {
                lemma_local_product(before1, before2, pts[i]);
            }
            assert forall|x: int|
                (weight(pts, 0, m) * player1_m.dealt(2, x) + weight(pts, 1, m) * player2_m.dealt(
                    2,
                    x,
                ) + weight(pts, 2, m) * player3_m.dealt(2, x)) % m == #[trigger] recombined(
                    pts,
                    z,
                    fresh,
                    x,
                    m,
                ) by {
                lemma_dealt_line(player1_m, x);
                lemma_dealt_line(player2_m, x);
                lemma_dealt_line(player3_m, x);
            }
            assert(player1_m.folded_share@ == recombined(pts, z, fresh, pts[0], m));
            assert(player2_m.folded_share@ == recombined(pts, z, fresh, pts[1], m));
            assert(player3_m.folded_share@ == recombined(pts, z, fresh, pts[2], m));
            lemma_resharing_recovers(pts, z, fresh, c, 0, 1, m);
            lemma_resharing_recovers(pts, z, fresh, c, 0, 2, m);
            lemma_resharing_recovers(pts, z, fresh, c, 1, 2, m);
        }
    }
    Ok(
        ProductOutcome {
            player1,
            player2,
            player3,
            reshared: Outcome {
                player1: player1_m,
                player2: player2_m,
                player3: player3_m,
                by_1_and_2,
                by_1_and_3,
                by_2_and_3,
            },
        },
    )
}

} // verus!
