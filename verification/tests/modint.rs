use algolib::modint::ModInt;

#[test]
fn modint_works() {
    type Mint = ModInt<998244353>;

    let a = Mint::new(314159265);
    let b = Mint::new(358979323);

    assert_eq!(-a, Mint::new(684085088));
    assert_eq!(a + b, Mint::new(673138588));
    assert_eq!(a - b, Mint::new(953424295));
    assert_eq!(a * b, Mint::new(525838123));
    assert_eq!(a / b, Mint::new(465339227));
}

#[test]
fn new_reduces() {
    type M7 = ModInt<7>;
    assert_eq!(M7::new(0).val(), 0);
    assert_eq!(M7::new(6).val(), 6);
    assert_eq!(M7::new(7).val(), 0);
    assert_eq!(M7::new(u32::MAX).val(), u32::MAX % 7);
    assert_eq!(M7::default().val(), 0);
}

#[test]
fn inv_is_the_inverse_where_coprime() {
    type M7 = ModInt<7>;
    for v in 1..7 {
        let a = M7::new(v);
        assert_eq!((a * a.inv()).val(), 1);
    }
    assert_eq!(M7::new(3).inv().val(), 5);
    type M12 = ModInt<12>;
    // 8 and 12 share the divisor 4: the product is that divisor
    let a = M12::new(8);
    assert_eq!((a * a.inv()).val(), 4);
}

#[test]
fn pow_is_the_power() {
    type M13 = ModInt<13>;
    assert_eq!(M13::new(2).pow(0).val(), 1);
    assert_eq!(M13::new(2).pow(1).val(), 2);
    assert_eq!(M13::new(2).pow(10).val(), 1024 % 13);
    assert_eq!(M13::new(0).pow(0).val(), 1);
    assert_eq!(M13::new(0).pow(5).val(), 0);
    type M1 = ModInt<1>;
    assert_eq!(M1::new(5).pow(0).val(), 0);
    type Mint = ModInt<998244353>;
    assert_eq!(Mint::new(3).pow(998244352).val(), 1);
}

#[test]
fn sums_and_differences_wrap() {
    type Big = ModInt<4294967291>;
    let a = Big::new(4294967290);
    let b = Big::new(4294967289);
    assert_eq!((a + b).val(), 4294967288);
    assert_eq!((b - a).val(), 4294967290);
    assert_eq!((-Big::new(0)).val(), 0);
    assert_eq!((-a).val(), 1);
    assert_eq!((a * b).val(), 2);
}
