use shamir_share::error::ShareError;
use shamir_share::field::ModInt;

type MINT = ModInt<1_000_000_007>;
type M17 = ModInt<17>;

#[test]
fn test1() {
    let a = MINT::new(111);
    let b = MINT::new(222);
    let c = MINT::new(333);
    let d = MINT::new(444);

    let res = a * b + c - d;
    assert_eq!(res.val(), 24531);
}

#[test]
fn test2() {
    let a = MINT::new(111111111);
    let b = MINT::new(222222222);
    let c = MINT::new(333333333);
    let d = MINT::new(444444444);

    let res = a * b + c - d;
    assert_eq!(res.val(), 691358032);
}

#[test]
fn new_reduces_modulo() {
    assert_eq!(M17::new(0).val(), 0);
    assert_eq!(M17::new(16).val(), 16);
    assert_eq!(M17::new(17).val(), 0);
    assert_eq!(M17::new(40).val(), 6);
    assert_eq!(MINT::new(1_000_000_008).val(), 1);
}

#[test]
fn sum_and_product_stay_reduced() {
    for a in 0..17usize {
        for b in 0..17usize {
            let s = M17::new(a) + M17::new(b);
            let p = M17::new(a) * M17::new(b);
            assert!(s.val() < 17);
            assert!(p.val() < 17);
            assert_eq!(s.val(), (a + b) % 17);
            assert_eq!(p.val(), (a * b) % 17);
        }
    }
}

#[test]
fn subtraction_borrows() {
    assert_eq!((M17::new(3) - M17::new(5)).val(), 15);
    assert_eq!((M17::new(5) - M17::new(3)).val(), 2);
    assert_eq!((M17::new(0) - M17::new(16)).val(), 1);
    assert_eq!((M17::new(7) - M17::new(7)).val(), 0);
}

#[test]
fn product_of_large_representatives_does_not_overflow() {
    type BIG = ModInt<18_446_744_073_709_551_557>;
    let a = BIG::new(18_446_744_073_709_551_556);
    let p = a * a;
    assert_eq!(p.val(), 1);
    let s = a + a;
    assert_eq!(s.val(), 18_446_744_073_709_551_555);
}

#[test]
fn power_by_squaring() {
    assert_eq!(M17::new(3).pow_u(0).val(), 1);
    assert_eq!(M17::new(3).pow_u(1).val(), 3);
    assert_eq!(M17::new(3).pow_u(4).val(), 13);
    assert_eq!(M17::new(3).pow_u(16).val(), 1);
    assert_eq!(M17::new(0).pow_u(0).val(), 1);
    assert_eq!(M17::new(0).pow_u(5).val(), 0);
    assert_eq!(M17::new(2).pow(M17::new(10)).val(), 4);
    assert_eq!(MINT::new(2).pow_u(1_000_000_006).val(), 1);
}

#[test]
fn inverse_times_element_is_one() {
    for a in 1..17usize {
        let x = M17::new(a);
        let i = x.inv().unwrap();
        assert_eq!((x * i).val(), 1);
        assert_eq!(x * i, M17::one());
    }
    assert_eq!(M17::new(5).inv().unwrap().val(), 7);
    let x = MINT::new(123456789);
    assert_eq!((x * x.inv().unwrap()).val(), 1);
}

#[test]
fn inverse_of_zero_is_an_error() {
    assert_eq!(M17::new(0).inv(), Err(ShareError::DivisionByZero));
    assert_eq!(M17::new(34).inv(), Err(ShareError::DivisionByZero));
}

#[test]
fn division_by_zero_is_an_error() {
    for a in 0..17usize {
        assert_eq!(M17::new(a) / M17::new(0), Err(ShareError::DivisionByZero));
    }
}

#[test]
fn division_multiplies_by_inverse() {
    assert_eq!((M17::new(6) / M17::new(3)).unwrap().val(), 2);
    assert_eq!((M17::new(1) / M17::new(5)).unwrap().val(), 7);
    assert_eq!((M17::new(0) / M17::new(5)).unwrap().val(), 0);
    let mut x = M17::new(6);
    x /= M17::new(3);
    assert_eq!(x.val(), 2);
}

#[test]
fn assigning_operators_match_the_plain_ones() {
    let mut x = M17::new(9);
    x += M17::new(10);
    assert_eq!(x.val(), 2);
    x -= M17::new(5);
    assert_eq!(x.val(), 14);
    x *= M17::new(3);
    assert_eq!(x.val(), 8);
    x %= M17::new(5);
    assert_eq!(x.val(), 3);
    assert_eq!((M17::new(13) % M17::new(4)).val(), 1);
}

#[test]
fn identities() {
    assert_eq!(M17::zero().val(), 0);
    assert_eq!(M17::one().val(), 1);
    assert!(M17::zero().is_zero());
    assert!(!M17::one().is_zero());
    assert!(M17::one().is_one());
    assert!(!M17::zero().is_one());
    let mut x = M17::new(9);
    x.set_zero();
    assert_eq!(x.val(), 0);
    x.set_one();
    assert_eq!(x.val(), 1);
    x._set_val(40);
    assert_eq!(x.val(), 6);
    assert_eq!(ModInt::<1>::one().val(), 0);
    assert!(ModInt::<1>::new(5).is_one());
}
