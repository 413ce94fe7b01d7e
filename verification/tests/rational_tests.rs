use core::cmp::Ordering;
use rshyeong::HyeongRational;

#[test]
fn partial_eq() {
    let three = HyeongRational::from_u64(3);
    let five = HyeongRational::from_u64(5);
    let another_three = HyeongRational::from_u64(1 + 2);
    let nan = HyeongRational::NaN;
    let another_nan = HyeongRational::NaN;

    assert_eq!(three, another_three);
    assert_ne!(three, five);
    assert_ne!(five, nan);
    assert_ne!(nan, another_nan);
}

#[test]
fn partial_ord() {
    let three = HyeongRational::from_u64(3);
    let five = HyeongRational::from_u64(5);
    let another_three = HyeongRational::from_u64(1 + 2);
    let nan = HyeongRational::NaN;
    let another_nan = HyeongRational::NaN;

    assert_eq!(three.partial_cmp(&five), Some(Ordering::Less));
    assert_eq!(three.partial_cmp(&another_three), Some(Ordering::Equal));
    assert_eq!(five.partial_cmp(&nan), None);
    assert_eq!(nan.partial_cmp(&another_nan), None);
}

#[test]
fn operators() {
    let mut half = HyeongRational::new_i64(1, 2);
    let one_third = HyeongRational::new_i64(1, 3);
    let five_sixth = HyeongRational::new_i64(5, 6);
    let one_sixth = HyeongRational::new_i64(1, 6);
    let minus_one_sixth = HyeongRational::new_i64(-1, 6);
    let nan = HyeongRational::NaN;

    assert_eq!(half.add(&one_third), five_sixth);
    assert_eq!(half.mul(&one_third), one_sixth);
    assert_eq!(one_third.add(&half.neg()), minus_one_sixth);
    assert!(five_sixth.add(&nan).is_nan());
    assert!(nan.mul(&one_third).is_nan());
    assert!(nan.mul(&nan).is_nan());

    half = half.add(&one_third);
    half = half.mul(&one_sixth);
    half = half.add(&minus_one_sixth);
    let mut answer = HyeongRational::new_i64(-1, 36);
    assert_eq!(half, answer);
    half = half.add(&nan);
    assert!(half.is_nan());
    answer = answer.mul(&nan);
    assert!(answer.is_nan());
}

#[test]
fn recip() {
    let half = HyeongRational::new_i64(1, 2);
    let two = HyeongRational::from_u64(2);
    let zero = HyeongRational::from_u64(0);
    let nan = HyeongRational::NaN;

    assert_eq!(half.recip(), two);
    assert_eq!(two.recip(), half);
    assert!(zero.recip().is_nan());
    assert!(nan.recip().is_nan());
}

#[test]
fn render_character() {
    assert_eq!(HyeongRational::from_u64(65).render(), "A");
    assert_eq!(HyeongRational::from_u64(0xac00).render(), "\u{ac00}");
    // 197 / 3 floors to 65.
    assert_eq!(HyeongRational::new_i64(197, 3).render(), "A");
}

#[test]
fn render_decimal() {
    // Negative values render the decimal digits of the absolute floor.
    assert_eq!(HyeongRational::from_i64(-32).render(), "32");
    // -11/7 floors to -2.
    assert_eq!(HyeongRational::new_i64(-11, 7).render(), "2");
}

#[test]
fn render_too_big() {
    let too_big = "\u{b108}\u{bb34} \u{cee4}\u{c5c7}...";
    assert_eq!(HyeongRational::NaN.render(), too_big);
    assert_eq!(HyeongRational::from_u64(0x110000).render(), too_big);
    assert_eq!(HyeongRational::from_u64(0xffff_ffff_ffff).render(), too_big);
    // Surrogate range values are not Unicode scalar values.
    assert_eq!(HyeongRational::from_u64(0xd800).render(), too_big);
}

#[test]
fn neg_and_recip_roundtrip() {
    let x = HyeongRational::new_i64(-3, 7);
    assert_eq!(x.neg().neg(), x);
    assert_eq!(x.recip().recip(), x);
    assert_eq!(x.add(&x.neg()), HyeongRational::from_i64(0));
}
