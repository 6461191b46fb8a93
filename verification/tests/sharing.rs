use shamir_share::error::ShareError;
use shamir_share::field::ModInt;
use shamir_share::lagrange::phis;
use shamir_share::player::evaluate;
use shamir_share::player::Player;
use shamir_share::protocol::product_shares;
use shamir_share::protocol::reconstruct;
use shamir_share::protocol::sum_shares;
use shamir_share::protocol::weighted_sum;
use shamir_share::simulation::add_simulation;
use shamir_share::simulation::mul_simulation;
use std::collections::HashMap;

type M = ModInt<17>;

fn m(n: usize) -> M {
    M::new(n)
}

fn table(entries: &[(u16, usize)]) -> HashMap<u16, M> {
    entries.iter().map(|&(k, v)| (k, m(v))).collect()
}

fn three_players() -> (Player<17>, Player<17>, Player<17>) {
    (
        Player::new(1, m(2), vec![m(5)]),
        Player::new(2, m(4), vec![m(3)]),
        Player::new(3, m(6), vec![m(7)]),
    )
}

#[test]
fn polynomial_is_evaluated_by_ascending_powers() {
    let coeffs = vec![m(2), m(5)];
    assert_eq!(evaluate(&coeffs, m(0)).val(), 2);
    assert_eq!(evaluate(&coeffs, m(1)).val(), 7);
    assert_eq!(evaluate(&coeffs, m(2)).val(), 12);
    assert_eq!(evaluate(&coeffs, m(3)).val(), 0);
    let cubic = vec![m(1), m(2), m(3), m(4)];
    // 1 + 2*2 + 3*4 + 4*8 = 49 = 15 (mod 17)
    assert_eq!(evaluate(&cubic, m(2)).val(), 15);
    assert_eq!(evaluate(&Vec::new(), m(5)).val(), 0);
    assert_eq!(evaluate(&vec![m(9)], m(5)).val(), 9);
}

#[test]
fn new_player_has_nothing_yet() {
    let p = Player::new(1, m(2), vec![m(5)]);
    assert_eq!(p.id, 1);
    assert_eq!(p.secret, m(2));
    assert_eq!(p.rands, vec![m(5)]);
    assert!(p.poly.is_none());
    assert!(p.shares.is_empty());
    assert_eq!(p.folded_share.val(), 0);
}

#[test]
fn making_the_polynomial_stores_the_own_share() {
    let mut p = Player::new(1, m(2), vec![m(5), m(9)]);
    p.make_poly(2);
    assert_eq!(p.poly, Some(vec![m(2), m(5)]));
    assert_eq!(p.shares, table(&[(1, 7)]));
    let mut q = Player::new(2, m(2), vec![m(5), m(9)]);
    q.make_poly(3);
    assert_eq!(q.poly, Some(vec![m(2), m(5), m(9)]));
    // 2 + 5*2 + 9*4 = 48 = 14 (mod 17)
    assert_eq!(q.shares, table(&[(2, 14)]));
    let mut c = Player::new(3, m(11), vec![]);
    c.make_poly(1);
    assert_eq!(c.poly, Some(vec![m(11)]));
    assert_eq!(c.shares, table(&[(3, 11)]));
}

#[test]
fn shares_are_values_of_the_polynomial() {
    let mut p = Player::new(1, m(2), vec![m(5)]);
    p.make_poly(2);
    assert_eq!(p.give_share(1), Ok(m(7)));
    assert_eq!(p.give_share(2), Ok(m(12)));
    assert_eq!(p.give_share(3), Ok(m(0)));
    assert_eq!(p.give_share(3), Ok(m(0)));
    assert_eq!(p.give_share(18), Ok(m(7)));
    assert_eq!(p.give_share(0), Ok(m(2)));
}

#[test]
fn no_share_before_the_polynomial() {
    let p = Player::new(1, m(2), vec![m(5)]);
    assert_eq!(p.give_share(2), Err(ShareError::PrecursorMissing));
    let mut q = Player::new(2, m(4), vec![m(3)]);
    assert_eq!(q.recieve_share(&p), Err(ShareError::PrecursorMissing));
    assert!(q.shares.is_empty());
}

#[test]
fn no_fold_before_a_share() {
    let mut p = Player::new(1, m(2), vec![m(5)]);
    assert_eq!(p.fold_share(sum_shares::<17>), Err(ShareError::PrecursorMissing));
    assert_eq!(p.folded_share.val(), 0);
}

#[test]
fn receiving_files_by_sender_and_overwrites() {
    let (mut alice, mut bob, _) = three_players();
    alice.make_poly(2);
    bob.make_poly(2);
    assert_eq!(alice.recieve_share(&bob), Ok(()));
    assert_eq!(alice.shares, table(&[(1, 7), (2, 7)]));
    assert_eq!(alice.recieve_share(&bob), Ok(()));
    assert_eq!(alice.shares, table(&[(1, 7), (2, 7)]));
    let mut other = Player::new(2, m(9), vec![m(1)]);
    other.make_poly(2);
    assert_eq!(alice.recieve_share(&other), Ok(()));
    assert_eq!(alice.shares, table(&[(1, 7), (2, 10)]));
}

#[test]
fn folding_keeps_the_result_of_the_reduction() {
    let (mut alice, mut bob, _) = three_players();
    alice.make_poly(2);
    bob.make_poly(2);
    bob.recieve_share(&alice).unwrap();
    assert_eq!(bob.fold_share(sum_shares::<17>), Ok(()));
    assert_eq!(bob.folded_share.val(), 5);
    assert_eq!(bob.fold_share(product_shares::<17>), Ok(()));
    assert_eq!(bob.folded_share.val(), 1);
    assert_eq!(bob.fold_share(|_| m(9)), Ok(()));
    assert_eq!(bob.folded_share.val(), 9);
}

#[test]
fn reductions_of_tables() {
    let t = table(&[(1, 12), (2, 10), (7, 3)]);
    assert_eq!(sum_shares(&t).val(), 8);
    assert_eq!(product_shares(&t).val(), 360 % 17);
    let empty: HashMap<u16, M> = HashMap::new();
    assert_eq!(sum_shares(&empty).val(), 0);
    assert_eq!(product_shares(&empty).val(), 1);
    let w = table(&[(1, 3), (2, 14), (7, 1), (9, 5)]);
    // 3*12 + 14*10 + 1*3 = 179 = 9 (mod 17)
    assert_eq!(weighted_sum(&w, &t).val(), 9);
    assert_eq!(weighted_sum(&w, &empty).val(), 0);
}

#[test]
fn weights_of_two_and_three_points() {
    assert_eq!(phis::<17>(&[1, 2]), Ok(table(&[(1, 2), (2, 16)])));
    assert_eq!(phis::<17>(&[1, 3]), Ok(table(&[(1, 10), (3, 8)])));
    assert_eq!(phis::<17>(&[2, 3]), Ok(table(&[(2, 3), (3, 15)])));
    assert_eq!(phis::<17>(&[1, 2, 3]), Ok(table(&[(1, 3), (2, 14), (3, 1)])));
    assert_eq!(phis::<17>(&[5]), Ok(table(&[(5, 1)])));
    assert_eq!(phis::<17>(&[]), Ok(HashMap::new()));
}

#[test]
fn weights_sum_to_one() {
    let w = phis::<17>(&[2, 5, 11, 16]).unwrap();
    assert_eq!(w.len(), 4);
    assert_eq!(sum_shares(&w).val(), 1);
}

#[test]
fn duplicate_points_are_refused() {
    assert_eq!(phis::<17>(&[1, 1]), Err(ShareError::InvalidParticipants));
    assert_eq!(phis::<17>(&[1, 2, 1]), Err(ShareError::InvalidParticipants));
    assert_eq!(phis::<17>(&[3, 4, 5, 5]), Err(ShareError::InvalidParticipants));
}

#[test]
fn identifiers_that_coincide_in_the_field_are_refused() {
    assert_eq!(phis::<17>(&[1, 18]), Err(ShareError::InvalidParticipants));
    assert_eq!(phis::<17>(&[0, 17]), Err(ShareError::InvalidParticipants));
    assert_eq!(
        reconstruct::<17>(&[(1, m(14)), (18, m(5))]),
        Err(ShareError::InvalidParticipants)
    );
    assert_eq!(
        reconstruct::<17>(&[(4, m(14)), (4, m(5))]),
        Err(ShareError::InvalidParticipants)
    );
}

#[test]
fn reconstruction_interpolates_at_zero() {
    // the line 6 + 8x through x = 1, 2, 3
    assert_eq!(reconstruct::<17>(&[(1, m(14)), (2, m(5))]), Ok(m(6)));
    assert_eq!(reconstruct::<17>(&[(1, m(14)), (3, m(13))]), Ok(m(6)));
    assert_eq!(reconstruct::<17>(&[(2, m(5)), (3, m(13))]), Ok(m(6)));
    assert_eq!(reconstruct::<17>(&[(3, m(13)), (1, m(14)), (2, m(5))]), Ok(m(6)));
    assert_eq!(reconstruct::<17>(&[]), Ok(m(0)));
}

#[test]
fn additive_round_trip() {
    let (mut alice, mut bob, _) = three_players();
    alice.make_poly(2);
    bob.make_poly(2);
    alice.recieve_share(&bob).unwrap();
    bob.recieve_share(&alice).unwrap();
    alice.fold_share(sum_shares::<17>).unwrap();
    bob.fold_share(sum_shares::<17>).unwrap();
    assert_eq!(alice.folded_share.val(), 14);
    assert_eq!(bob.folded_share.val(), 5);
    let sum = reconstruct(&[(alice.id, alice.folded_share), (bob.id, bob.folded_share)]).unwrap();
    assert_eq!(sum.val(), (2 + 4) % 17);
}

#[test]
fn additive_round_trip_with_threshold_three() {
    let secrets = [3usize, 8, 12, 16];
    let rands = [[4usize, 9], [1, 1], [16, 2], [7, 0]];
    let ids = [2u16, 5, 9, 14];
    let mut players: Vec<Player<17>> = (0..4)
        .map(|i| Player::new(ids[i], m(secrets[i]), vec![m(rands[i][0]), m(rands[i][1])]))
        .collect();
    for p in players.iter_mut() {
        p.make_poly(3);
    }
    for i in 0..4 {
        for j in 0..4 {
            if i != j {
                let sender = Player::new(
                    players[j].id,
                    players[j].secret,
                    players[j].rands.clone(),
                );
                let mut sender = sender;
                sender.make_poly(3);
                players[i].recieve_share(&sender).unwrap();
            }
        }
    }
    for p in players.iter_mut() {
        p.fold_share(sum_shares::<17>).unwrap();
    }
    let expected = (3 + 8 + 12 + 16) % 17;
    for skip in 0..4 {
        let group: Vec<(u16, M)> = (0..4)
            .filter(|&i| i != skip)
            .map(|i| (players[i].id, players[i].folded_share))
            .collect();
        assert_eq!(reconstruct(&group).unwrap().val(), expected);
    }
    let all: Vec<(u16, M)> = players.iter().map(|p| (p.id, p.folded_share)).collect();
    assert_eq!(reconstruct(&all).unwrap().val(), expected);
}

#[test]
fn too_few_shares_can_reconstruct_a_wrong_value() {
    let (mut alice, mut bob, _) = three_players();
    alice.make_poly(2);
    bob.make_poly(2);
    alice.recieve_share(&bob).unwrap();
    bob.recieve_share(&alice).unwrap();
    alice.fold_share(sum_shares::<17>).unwrap();
    bob.fold_share(sum_shares::<17>).unwrap();
    let enough = reconstruct(&[(alice.id, alice.folded_share), (bob.id, bob.folded_share)]).unwrap();
    let too_few = reconstruct(&[(alice.id, alice.folded_share)]).unwrap();
    assert_eq!(enough.val(), 6);
    assert_eq!(too_few.val(), 14);
    assert_ne!(too_few, enough);
}

#[test]
fn addition_session() {
    let (alice, bob, carol) = three_players();
    let out = add_simulation(alice, bob, carol).unwrap();
    assert_eq!(out.player1.shares, table(&[(1, 7), (2, 7)]));
    assert_eq!(out.player2.shares, table(&[(1, 12), (2, 10)]));
    assert_eq!(out.player3.shares, table(&[(1, 0), (2, 13)]));
    assert_eq!(out.player1.folded_share.val(), 14);
    assert_eq!(out.player2.folded_share.val(), 5);
    assert_eq!(out.player3.folded_share.val(), 13);
    assert_eq!(out.player1.poly, Some(vec![m(2), m(5)]));
    assert_eq!(out.player2.poly, Some(vec![m(4), m(3)]));
    assert!(out.player3.poly.is_none());
    assert_eq!(out.player3.secret.val(), 6);
    assert_eq!(out.by_1_and_2.val(), 6);
    assert_eq!(out.by_1_and_3.val(), 6);
    assert_eq!(out.by_2_and_3.val(), 6);
}

#[test]
fn multiplication_session() {
    let (alice, bob, carol) = three_players();
    let out = mul_simulation(alice, bob, carol, 7, 9, 11).unwrap();
    assert_eq!(out.player1.folded_share.val(), 15);
    assert_eq!(out.player2.folded_share.val(), 1);
    assert_eq!(out.player3.folded_share.val(), 0);
    assert_eq!(out.player1.shares, table(&[(1, 7), (2, 7)]));
    let re = out.reshared;
    assert_eq!(re.player1.secret.val(), 15);
    assert_eq!(re.player2.secret.val(), 1);
    assert_eq!(re.player3.secret.val(), 0);
    assert_eq!(re.player1.rands, vec![m(7)]);
    assert_eq!(re.player2.rands, vec![m(9)]);
    assert_eq!(re.player3.rands, vec![m(11)]);
    assert_eq!(re.player1.shares, table(&[(1, 5), (2, 10), (3, 11)]));
    assert_eq!(re.player2.shares, table(&[(1, 12), (2, 2), (3, 5)]));
    assert_eq!(re.player3.shares, table(&[(1, 2), (2, 11), (3, 16)]));
    assert_eq!(re.player1.folded_share.val(), 13);
    assert_eq!(re.player2.folded_share.val(), 1);
    assert_eq!(re.player3.folded_share.val(), 6);
    assert_eq!(re.by_1_and_2.val(), (2 * 4) % 17);
    assert_eq!(re.by_1_and_3.val(), 8);
    assert_eq!(re.by_2_and_3.val(), 8);
}

#[test]
fn multiplication_session_with_any_fresh_elements() {
    for f1 in 0..17u16 {
        for f2 in [0u16, 3, 16, 40] {
            let (alice, bob, carol) = three_players();
            let out = mul_simulation(alice, bob, carol, f1, f2, 5).unwrap();
            assert_eq!(out.reshared.by_1_and_2.val(), 8);
            assert_eq!(out.reshared.by_1_and_3.val(), 8);
            assert_eq!(out.reshared.by_2_and_3.val(), 8);
        }
    }
}

#[test]
fn sessions_refuse_coinciding_participants() {
    let alice = Player::<17>::new(1, m(2), vec![m(5)]);
    let bob = Player::<17>::new(2, m(4), vec![m(3)]);
    let carol = Player::<17>::new(18, m(6), vec![m(7)]);
    assert!(matches!(add_simulation(alice, bob, carol), Err(ShareError::InvalidParticipants)));
    let alice = Player::<17>::new(4, m(2), vec![m(5)]);
    let bob = Player::<17>::new(4, m(4), vec![m(3)]);
    let carol = Player::<17>::new(3, m(6), vec![m(7)]);
    assert!(matches!(
        mul_simulation(alice, bob, carol, 7, 9, 11),
        Err(ShareError::InvalidParticipants)
    ));
}
