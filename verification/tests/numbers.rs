use dmitri::fixed::{power_of_two, to_unit_fraction, UNIT};
use dmitri::matching::find;
use dmitri::big::{from_u128, less, product, product_with_digit, scaled, shift_up, sum};
use dmitri::weight::Weight;

#[test]
fn fractions_are_counted_in_units_of_two_to_the_minus_32() {
    assert_eq!(UNIT, 1u64 << 32);
    assert_eq!(to_unit_fraction(0.0f32.to_bits()), 0);
    assert_eq!(to_unit_fraction(1.0f32.to_bits()), 1u64 << 32);
    assert_eq!(to_unit_fraction(0.5f32.to_bits()), 1u64 << 31);
    assert_eq!(to_unit_fraction(0.75f32.to_bits()), 3u64 << 30);
    assert_eq!(to_unit_fraction(0.99999994f32.to_bits()), (1u64 << 32) - 256);
    assert_eq!(to_unit_fraction((2.0f32 / 3.0).to_bits()), 0xaaaa_ab00);
    assert_eq!(to_unit_fraction(2.0f32.powi(-32).to_bits()), 1);
    assert_eq!(to_unit_fraction(2.0f32.powi(-33).to_bits()), 0);
    assert_eq!(to_unit_fraction((1.5f32 * 2.0f32.powi(-32)).to_bits()), 1);
    assert_eq!(to_unit_fraction((1.5f32 * 2.0f32.powi(-31)).to_bits()), 3);
}

#[test]
fn fractions_are_cut_to_the_range_from_zero_to_one() {
    assert_eq!(to_unit_fraction(2.0f32.to_bits()), UNIT);
    assert_eq!(to_unit_fraction(f32::INFINITY.to_bits()), UNIT);
    assert_eq!(to_unit_fraction(f32::MAX.to_bits()), UNIT);
    assert_eq!(to_unit_fraction((-0.5f32).to_bits()), 0);
    assert_eq!(to_unit_fraction((-0.0f32).to_bits()), 0);
    assert_eq!(to_unit_fraction(f32::NAN.to_bits()), 0);
    assert_eq!(to_unit_fraction(f32::NEG_INFINITY.to_bits()), 0);
    assert_eq!(to_unit_fraction(1), 0);
    assert_eq!(to_unit_fraction(0x007f_ffff), 0);
}

#[test]
fn powers_of_two() {
    assert_eq!(power_of_two(0), 1);
    assert_eq!(power_of_two(10), 1024);
    assert_eq!(power_of_two(127), 1u128 << 127);
}

#[test]
fn only_positive_finite_numbers_are_weights() {
    assert!(Weight::from_bits(5.0f32.to_bits()).is_some());
    assert!(Weight::from_bits(f32::MIN_POSITIVE.to_bits()).is_some());
    assert!(Weight::from_bits(1).is_some());
    assert!(Weight::from_bits(f32::MAX.to_bits()).is_some());
    assert!(Weight::from_bits(0.0f32.to_bits()).is_none());
    assert!(Weight::from_bits((-5.0f32).to_bits()).is_none());
    assert!(Weight::from_bits((-0.0f32).to_bits()).is_none());
    assert!(Weight::from_bits(f32::INFINITY.to_bits()).is_none());
    assert!(Weight::from_bits(f32::NAN.to_bits()).is_none());
    assert!(Weight::whole(0).is_none());
    assert!(Weight::whole(1).is_some());
}

#[test]
fn weights_are_held_exactly() {
    assert_eq!(Weight::usual().parts(), (5, 0));
    assert_eq!(Weight::whole(7).unwrap().parts(), (7, 0));
    assert_eq!(Weight::from_bits(5.0f32.to_bits()).unwrap().parts(), (5 << 21, 21));
    assert_eq!(Weight::from_bits(0.5f32.to_bits()).unwrap().parts(), (1 << 23, 24));
    assert_eq!(Weight::from_bits(1).unwrap().parts(), (1, 149));
    assert_eq!(Weight::from_bits(2.0f32.powi(100).to_bits()).unwrap().parts(), (1 << 100, 0));
    assert_eq!(
        Weight::from_bits(f32::MAX.to_bits()).unwrap().parts(),
        (((1u128 << 24) - 1) << 104, 0)
    );
}

fn number(digits: &[u32]) -> u128 {
    digits.iter().rev().fold(0u128, |n, d| (n << 32) | *d as u128)
}

#[test]
fn the_boost_has_an_exact_denominator() {
    let five = Weight::usual();
    assert_eq!(number(&five.numerator_digits()), 5);
    assert_eq!(number(&five.denominator(0)), 5);
    assert_eq!(number(&five.denominator(5)), 10);
    assert_eq!(number(&five.denominator(usize::MAX)), usize::MAX as u128 + 5);
    let half = Weight::from_bits(0.5f32.to_bits()).unwrap();
    assert_eq!(number(&half.denominator(0)), 1 << 23);
    assert_eq!(number(&half.denominator(1)), 3 << 23);
    let tiny = Weight::from_bits(1).unwrap();
    let d = tiny.denominator(3);
    assert!(less(&scaled(3, 149), &d));
    assert!(less(&d, &scaled(3, 150)));
    assert!(!less(&d, &sum(&scaled(3, 149), &from_u128(1))));
    assert!(!less(&sum(&scaled(3, 149), &from_u128(1)), &d));
}

#[test]
fn numbers_without_a_bound() {
    assert_eq!(number(&from_u128(0)), 0);
    assert_eq!(number(&from_u128(1)), 1);
    assert_eq!(number(&from_u128(u128::MAX)), u128::MAX);
    assert_eq!(number(&from_u128(0x1_0000_0000)), 0x1_0000_0000);
    let a = 0xfedc_ba98_7654_3210u64 as u128;
    let b = 0xffff_ffff_ffff_ffffu64 as u128;
    assert_eq!(number(&product(&from_u128(a), &from_u128(b))), a * b);
    assert_eq!(number(&product(&from_u128(a), &from_u128(0))), 0);
    assert_eq!(number(&product(&from_u128(0), &from_u128(b))), 0);
    assert_eq!(number(&product_with_digit(&from_u128(a), 0xffff_ffff)), a * 0xffff_ffff);
    assert_eq!(number(&sum(&from_u128(a * b), &from_u128(b))), a * b + b);
    assert_eq!(number(&sum(&from_u128(0), &from_u128(0))), 0);
    assert_eq!(number(&shift_up(&from_u128(a), 2)), a << 64);
    assert_eq!(number(&scaled(3, 40)), 3 << 40);
    assert_eq!(number(&scaled(a, 63)), a << 63);
    assert_eq!(number(&scaled(0, 500)), 0);
    assert_eq!(scaled(1, 149), vec![0, 0, 0, 0, 1 << 21, 0]);
    let big = product(&scaled(a, 300), &scaled(b, 300));
    let bigger = sum(&big, &from_u128(1));
    assert!(less(&big, &bigger));
    assert!(!less(&bigger, &big));
    assert!(!less(&big, &big));
    assert!(less(&from_u128(0), &from_u128(1)));
    assert!(!less(&from_u128(1), &from_u128(0)));
    assert!(!less(&vec![5, 0, 0], &vec![5]));
    assert!(less(&vec![5, 0, 0], &vec![6]));
    assert!(less(&vec![0xffff_ffff], &vec![0, 1]));
    assert!(less(&product(&big, &scaled(1, 64)), &product(&bigger, &scaled(1, 64))));
}

#[test]
fn find_gives_the_first_byte_offset() {
    assert_eq!(find(b"firefox", b"fi"), Some(0));
    assert_eq!(find(b"firefox", b"f"), Some(0));
    assert_eq!(find(b"firefox", b"fo"), Some(4));
    assert_eq!(find(b"firefox", b"x"), Some(6));
    assert_eq!(find(b"firefox", b"xx"), None);
    assert_eq!(find(b"firefox", b"firefoxes"), None);
    assert_eq!(find(b"firefox", b""), Some(0));
    assert_eq!(find(b"", b""), Some(0));
    assert_eq!(find(b"", b"a"), None);
    assert_eq!(find(b"aaab", b"aab"), Some(1));
    assert_eq!(find("\u{e9}t\u{e9}".as_bytes(), "t".as_bytes()), Some(2));
}
