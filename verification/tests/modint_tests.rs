use modint::modint::{IntoModInt, ModInt, Modulo};
use std::cmp::Ordering;

#[test]
fn mint_new() {
    let m = ModInt::new(10, 3);
    assert_eq!(m.get(), 1);

    let m = ModInt::new(-10, 3);
    assert_eq!(m.get(), 2);

    let x = 4.to_mint(10);
    let y = ModInt::new(4, 10);
    assert!(x.equals(&y));
}

#[test]
fn inv_test() {
    let a = ModInt::new(6, 13);
    assert_eq!(a.inv(), 11);
}

#[test]
fn mint_add() {
    let a = ModInt::new(13, 8); // 5
    let b = ModInt::new(10, 8); // 2
    assert_eq!(a.add(b).get(), 7);

    let c = ModInt::new(7, 8); // 7
    assert_eq!(a.add(c).get(), 4); // (5 + 7) % 8 == 4
}

#[test]
fn mint_sub() {
    let a = ModInt::new(2, 10);
    let b = ModInt::new(3, 10);

    assert_eq!(b.sub(a).get(), 1);
    assert_eq!(a.sub(b).get(), 9);
}

#[test]
fn div_test() {
    let a = ModInt::new(2, 5);
    let b = ModInt::new(3, 5);
    assert!(a.div(b).equals(&ModInt::new(4, 5)));

    let x = ModInt::new(1, 13);
    assert_eq!(x.div_i64(4).get(), 10);

    let x = ModInt::new(2, 13);
    assert_eq!(x.div_i64(4).get(), 7);

    let x = ModInt::new(3, 13);
    assert_eq!(x.div_i64(4).get(), 4);

    let x = ModInt::new(4, 13);
    assert_eq!(x.div_i64(4).get(), 1);

    let x = ModInt::new(5, 13);
    assert_eq!(x.div_i64(4).get(), 11);

    let x = ModInt::new(6, 13);
    assert_eq!(x.div_i64(4).get(), 8);

    let x = ModInt::new(7, 13);
    assert_eq!(x.div_i64(4).get(), 5);

    let x = ModInt::new(8, 13);
    assert_eq!(x.div_i64(4).get(), 2);

    let x = ModInt::new(9, 13);
    assert_eq!(x.div_i64(4).get(), 12);

    let x = ModInt::new(10, 13);
    assert_eq!(x.div_i64(4).get(), 9);

    let x = ModInt::new(11, 13);
    assert_eq!(x.div_i64(4).get(), 6);

    let x = ModInt::new(12, 13);
    assert_eq!(x.div_i64(4).get(), 3);
}

#[test]
fn pow_test() {
    let a = ModInt::new(3, 10);
    assert_eq!(a.pow(3).get(), 7);

    let b = ModInt::new(100, 9999);
    assert_eq!(b.pow(2).get(), 1);
}

#[test]
fn op_between_different_type() {
    let mut mint = ModInt::new(1, 10);
    mint = mint.add_i64(1);
    assert_eq!(mint.get(), 2);
    mint = mint.mul_i64(2);
    assert_eq!(mint.get(), 4);
    mint = mint.add_i64(10001);
    assert_eq!(mint.get(), 5);
}

#[test]
fn construct_residue_range() {
    // Constructed residues land in [0, m) and are congruent to the input.
    assert_eq!(ModInt::new(0, 1).get(), 0);
    assert_eq!(ModInt::new(5, 1).get(), 0);
    assert_eq!(ModInt::new(-1, 7).get(), 6);
    assert_eq!(ModInt::new(i64::MAX, 2).get(), 1);
    assert_eq!(ModInt::new(i64::MIN, 2).get(), 0);
    assert_eq!(ModInt::new(i64::MIN, u32::MAX).get(), (i64::MIN).rem_euclid(u32::MAX as i64));
}

#[test]
fn modulo_tag() {
    assert_eq!(Modulo::Static(5).get(), Some(5));
    assert_eq!(Modulo::Dynamic.get(), None);
    let a = ModInt::new(4, 10);
    assert_eq!(a.get_mod(), 10);
}

#[test]
fn residue_sum_law() {
    // (a + b).residue == (a.residue + b.residue) mod m, and likewise for
    // subtraction, multiplication and remainder.
    let a = ModInt::new(6, 9);
    let b = ModInt::new(8, 9);
    assert_eq!(a.add(b).get(), (6 + 8) % 9);
    assert_eq!(a.sub(b).get(), (6 - 8 as i64).rem_euclid(9));
    assert_eq!(a.mul(b).get(), (6 * 8) % 9);
    assert_eq!(a.rem(b).get(), 6 % 8);
}

#[test]
fn rem_operator() {
    let a = ModInt::new(7, 9);
    let b = ModInt::new(4, 9);
    assert_eq!(a.rem(b).get(), 3);
    let mut c = a;
    c.rem_assign(b);
    assert_eq!(c.get(), 3);
}

#[test]
fn assign_operators() {
    let mut a = ModInt::new(6, 9);
    a.add_assign(ModInt::new(8, 9));
    assert_eq!(a.get(), 5);
    a.sub_assign(ModInt::new(7, 9));
    assert_eq!(a.get(), 7);
    a.mul_assign(ModInt::new(4, 9));
    assert_eq!(a.get(), 1);
    a.div_assign(ModInt::new(2, 9));
    assert_eq!(a.get(), 5); // 5 * 2 == 10 == 1 (mod 9)
}

#[test]
fn identity_seeds() {
    // The identity elements carry the neutral modulus and adopt a concrete
    // one on first combination.
    let z = ModInt::zero();
    assert_eq!(z.get(), 0);
    assert!(z.is_zero());
    let o = ModInt::one();
    assert_eq!(o.get(), 1);
    assert!(o.is_one());

    let a = ModInt::new(4, 10);
    assert_eq!(a.add(z).get(), 4);
    assert_eq!(z.add(a).get(), 4);
    assert_eq!(a.mul(o).get(), 4);
    assert_eq!(o.mul(a).get(), 4);
    assert_eq!(a.add(z).get_mod(), 10);

    // The one seed is the identity under a modulus of 1 as well.
    let tiny = ModInt::new(0, 1);
    assert_eq!(tiny.add(ModInt::one()).get(), 0);
    assert_eq!(tiny.mul(ModInt::one()).get(), 0);
}

#[test]
fn inverse_law() {
    // For residues coprime to the modulus, a * a.inv() == 1 (mod m).
    let a = ModInt::new(3, 10);
    let v = a.inv();
    assert_eq!(v, 7);
    assert_eq!((3 * v) % 10, 1);
    for r in 1..13i64 {
        let x = ModInt::new(r, 13);
        assert_eq!((r * x.inv()).rem_euclid(13), 1);
    }
}

#[test]
fn pow_law() {
    // a.pow(e).residue == a.residue^e mod m; the zeroth power is 1.
    let a = ModInt::new(5, 7);
    assert_eq!(a.pow(0).get(), 1);
    assert_eq!(a.pow(1).get(), 5);
    assert_eq!(a.pow(2).get(), 4);
    assert_eq!(a.pow(10).get(), 5i64.pow(10).rem_euclid(7));
    // The zeroth power under modulus 1 is the residue of 1, namely 0.
    assert_eq!(ModInt::new(0, 1).pow(0).get(), 0);
}

#[test]
fn div_matches_mul_by_inverse() {
    // a.div(b) == a.mul(b.inv() committed under the shared modulus).
    let a = ModInt::new(2, 5);
    let b = ModInt::new(3, 5);
    let binv = ModInt::new(b.inv(), 5);
    assert!(a.div(b).equals(&a.mul(binv)));

    for x in 0..13i64 {
        let a = ModInt::new(x, 13);
        let b = ModInt::new(4, 13);
        let binv = ModInt::new(b.inv(), 13);
        assert!(a.div(b).equals(&a.mul(binv)));
    }
}

#[test]
fn falling_products() {
    let a = ModInt::new(7, 10);
    assert_eq!(a.falling(3).get(), (7 * 6 * 5) % 10);
    assert_eq!(a.falling(1).get(), 7);
    let none = a.falling(0);
    assert!(none.is_one());
    // Taking nothing needs no modulus: a neutral seed passes through.
    assert!(ModInt::one().falling(0).is_one());
    assert!(ModInt::zero().falling(0).is_one());
    // A run that crosses zero: 2 * 1 * 0 == 0.
    assert_eq!(ModInt::new(2, 7).falling(3).get(), 0);
}

#[test]
fn rising_products() {
    let a = ModInt::new(7, 10);
    assert_eq!(a.rising(3).get(), (7 * 8 * 9) % 10);
    assert_eq!(a.rising(1).get(), 7);
    let none = a.rising(0);
    assert!(none.is_one());
    // Taking nothing needs no modulus: a neutral seed passes through.
    assert!(ModInt::one().rising(0).is_one());
    assert!(ModInt::zero().rising(0).is_one());
}

#[test]
fn parse_str_radix() {
    let v = ModInt::from_str_radix("123", 10);
    assert_eq!(v.get(), 123);
    assert_eq!(ModInt::from_str_radix("ff", 16).get(), 255);
    assert_eq!(ModInt::from_str_radix("FF", 16).get(), 255);
    assert_eq!(ModInt::from_str_radix("10", 2).get(), 2);
    assert_eq!(ModInt::from_str_radix("z", 36).get(), 35);
    assert_eq!(ModInt::from_str_radix("", 10).get(), 0);

    // The parsed value carries the neutral modulus and commits on use.
    let committed = ModInt::new(3, 5).mul(v);
    assert_eq!(committed.get(), (3 * 123) % 5);
    assert_eq!(committed.get_mod(), 5);
}

#[test]
fn parse_str_radix_rejects() {
    assert!(ModInt::try_from_str_radix("12x", 10).is_none());
    assert!(ModInt::try_from_str_radix("19", 8).is_none());
    assert!(ModInt::try_from_str_radix("9999999999999999999999999", 10).is_none());
    let ok = ModInt::try_from_str_radix("17", 10);
    assert_eq!(ok.unwrap().get(), 17);
}

#[test]
fn ordering_and_equality() {
    let a = ModInt::new(2, 10);
    let b = ModInt::new(3, 10);
    assert_eq!(a.partial_cmp(&b), Some(Ordering::Less));
    assert_eq!(b.partial_cmp(&a), Some(Ordering::Greater));
    assert_eq!(a.partial_cmp(&ModInt::new(12, 10)), Some(Ordering::Equal));

    // Across moduli the values are incomparable rather than failing hard.
    let c = ModInt::new(2, 7);
    assert_eq!(a.partial_cmp(&c), None);
    assert_eq!(ModInt::zero().partial_cmp(&ModInt::one()), None);

    // A neutral seed compares against a committed value by residue.
    assert!(ModInt::one().equals(&ModInt::new(1, 5)));
    assert!(!ModInt::one().equals(&ModInt::new(2, 5)));
}

#[test]
fn explicit_accessors() {
    let a = ModInt::new(42, 100);
    assert_eq!(a.to_usize(), 42);
    assert_eq!(a.get(), 42);
}

#[test]
fn into_mint_for_primitives() {
    assert_eq!(255u8.to_mint(10).get(), 5);
    assert_eq!(65535u16.to_mint(7).get(), 65535 % 7);
    assert_eq!(4000000000u32.to_mint(9).get(), 4000000000i64 % 9);
    assert_eq!(4000000000u64.to_mint(9).get(), 4000000000i64 % 9);
    assert_eq!(7usize.to_mint(5).get(), 2);
    assert_eq!((-7i8).to_mint(3).get(), 2);
    assert_eq!((-7i16).to_mint(3).get(), 2);
    assert_eq!((-7i32).to_mint(3).get(), 2);
    assert_eq!((-7i64).to_mint(3).get(), 2);
    assert_eq!((-7isize).to_mint(3).get(), 2);
}
