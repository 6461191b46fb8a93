use shamir_share::modcom::ModCom;

fn pascal_row(n: usize, modulus: usize) -> Vec<usize> {
    let mut row = vec![1usize % modulus];
    for _ in 0..n {
        let mut next = vec![1usize % modulus];
        for j in 1..row.len() {
            next.push((row[j - 1] + row[j]) % modulus);
        }
        next.push(1usize % modulus);
        row = next;
    }
    row
}

fn factorial(n: u128) -> u128 {
    (1..=n).product()
}

#[test]
fn table_agrees_with_direct_factorial_division() {
    let table = ModCom::<13>::new(13);
    for n in 0..13usize {
        for k in 0..=n {
            let direct = factorial(n as u128) / (factorial(k as u128) * factorial((n - k) as u128));
            assert_eq!(table.com(n, k) as u128, direct % 13, "n = {}, k = {}", n, k);
        }
    }
}

#[test]
fn table_agrees_with_pascal_triangle() {
    let table = ModCom::<1_000_000_007>::new(200);
    for n in 0..200usize {
        let row = pascal_row(n, 1_000_000_007);
        for k in 0..=n {
            assert_eq!(table.com(n, k), row[k]);
        }
    }
}

#[test]
fn choosing_nothing_is_one_way() {
    let table = ModCom::<17>::new(17);
    for n in 0..17usize {
        assert_eq!(table.com(n, 0), 1);
        assert_eq!(table.com(n, n), 1);
    }
}

#[test]
fn choosing_more_than_available_is_zero() {
    let table = ModCom::<17>::new(5);
    assert_eq!(table.com(3, 5), 0);
    assert_eq!(table.com(0, 1), 0);
    assert_eq!(table.com(4, 100), 0);
    assert_eq!(table.com(100, 101), 0);
}

#[test]
fn known_coefficients() {
    let table = ModCom::<1_000_000_007>::new(64);
    assert_eq!(table.com(10, 3), 120);
    assert_eq!(table.com(5, 2), 10);
    assert_eq!(table.com(52, 5), 2_598_960);
    assert_eq!(table.com(40, 20), 137_846_528_820u64 as usize % 1_000_000_007);
    let small = ModCom::<7>::new(7);
    assert_eq!(small.com(6, 3), 20 % 7);
    assert_eq!(small.com(5, 2), 10 % 7);
}

#[test]
fn smallest_table() {
    let table = ModCom::<2>::new(2);
    assert_eq!(table.com(0, 0), 1);
    assert_eq!(table.com(1, 0), 1);
    assert_eq!(table.com(1, 1), 1);
}
