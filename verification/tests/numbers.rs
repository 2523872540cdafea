use rust_countdown::base_types::numbers::{
    product_below, sum_below, CheckedOperations, CountdownRange, ModularNumberSystem,
    NormalNumberSystem, NumberSystem, NumberType,
};
use rust_countdown::base_types::numerals::{read_numeral, write_decimal, write_numeral};

#[test]
fn primes_are_told_from_other_numbers() {
    let primes: Vec<u32> = (0..60u32).filter(|n| n.is_prime()).collect();
    assert_eq!(
        primes,
        vec![2, 3, 5, 7, 11, 13, 17, 19, 23, 29, 31, 37, 41, 43, 47, 53, 59]
    );
    assert!(251u8.is_prime());
    assert!(!255u8.is_prime());
    assert!(!(-7i32).is_prime());
    assert!(127i8.is_prime());
    assert!(!49u8.is_prime());
}

#[test]
fn checked_operations_give_nothing_on_overflow() {
    assert_eq!(CheckedOperations::checked_add(200u8, 55), Some(255));
    assert_eq!(CheckedOperations::checked_add(200u8, 56), None);
    assert_eq!(CheckedOperations::checked_sub(3u8, 4), None);
    assert_eq!(CheckedOperations::checked_mul(16u8, 16), None);
    assert_eq!(CheckedOperations::checked_div(7i8, -2), Some(-3));
    assert_eq!(CheckedOperations::checked_div(-128i8, -1), None);
    assert_eq!(CheckedOperations::checked_div(7u8, 0), None);
}

#[test]
fn normal_system_guards_its_operands() {
    let system = NormalNumberSystem;
    assert_eq!(NumberSystem::<u8>::add(&system, 5, 4), Some(9));
    assert_eq!(NumberSystem::<u8>::add(&system, 4, 5), None);
    assert_eq!(NumberSystem::<u8>::add(&system, 4, 4), None);
    assert_eq!(NumberSystem::<u8>::add(&system, 4, 0), None);
    assert_eq!(NumberSystem::<u8>::add(&system, 200, 100), None);
    assert_eq!(NumberSystem::<u8>::sub(&system, 5, 4), Some(1));
    assert_eq!(NumberSystem::<u8>::sub(&system, 5, 5), None);
    assert_eq!(NumberSystem::<i8>::sub(&system, 100, -100), None);
    assert_eq!(NumberSystem::<u8>::mul(&system, 5, 4), Some(20));
    assert_eq!(NumberSystem::<u8>::mul(&system, 5, 1), None);
    assert_eq!(NumberSystem::<i8>::mul(&system, 5, 0), None);
    assert_eq!(NumberSystem::<i8>::mul(&system, 0, -3), None);
    assert_eq!(NumberSystem::<u8>::mul(&system, 20, 13), None);
    assert_eq!(NumberSystem::<u8>::div(&system, 7, 2), Some(3));
    assert_eq!(NumberSystem::<u8>::div(&system, 8, 1), None);
    assert_eq!(NumberSystem::<u8>::div(&system, 2, 8), None);
    assert_eq!(NumberSystem::<i8>::div(&system, 7, -2), Some(-3));
}

#[test]
fn modular_system_reduces_by_the_modulus() {
    let system = ModularNumberSystem::new(7u8);
    assert_eq!(system.add(5, 4), Some(2));
    assert_eq!(system.add(0, 0), Some(0));
    assert_eq!(system.sub(2, 5), Some(4));
    assert_eq!(system.sub(5, 0), Some(5));
    assert_eq!(system.sub(3, 3), None);
    assert_eq!(system.mul(5, 4), Some(6));
    assert_eq!(system.mul(6, 0), Some(0));
}

#[test]
fn modular_sums_that_the_type_cannot_hold_are_no_result() {
    let system = ModularNumberSystem::new(200u8);
    assert_eq!(system.add(100, 155), Some(55));
    assert_eq!(system.add(100, 156), None);
    assert_eq!(system.sub(100, 10), None);
    assert_eq!(system.sub(10, 100), Some(110));
    assert_eq!(system.mul(16, 16), None);
    assert_eq!(system.mul(15, 17), Some(55));
}

#[test]
fn modular_division_multiplies_by_a_power() {
    let system = ModularNumberSystem::new(7u8);
    assert_eq!(system.pow(3, 6), 1);
    assert_eq!(system.pow(3, 5), 5);
    assert_eq!(system.pow(3, 0), 1);
    assert_eq!(system.pow(0, 6), 0);
    assert_eq!(system.multiplicative_inverse(3), 1);
    assert_eq!(system.div(2, 3), Some(2));
    assert_eq!(system.div(3, 2), Some(3));
    assert_eq!(system.div(3, 0), Some(0));
    assert_eq!(system.t_into_range(23), 2);
    let mut t = 20u8;
    system.in_range(&mut t);
    assert_eq!(t, 6);
    let signed = ModularNumberSystem::new(7i8);
    assert_eq!(signed.t_into_range(-3), 4);
}

#[test]
fn modular_division_needs_a_prime_modulus() {
    let system = ModularNumberSystem::new(6u8);
    for one in 0..6 {
        for other in 0..6 {
            assert_eq!(system.div(one, other), None);
        }
    }
    let unit = ModularNumberSystem::new(1u8);
    assert_eq!(unit.div(0, 0), None);
}

#[test]
fn modular_powers_are_not_bound_by_the_number_type() {
    let system = ModularNumberSystem::new(251u8);
    assert_eq!(system.pow(250, 2), 1);
    assert_eq!(system.pow(2, 8), 5);
    assert_eq!(system.pow(250, 250), 1);
    assert_eq!(system.div(3, 250), Some(3));
    assert_eq!(system.div(3, 1), Some(3));
    assert_eq!(system.div(250, 250), Some(250));
}

#[test]
fn modular_powers_take_few_multiplications() {
    let system = ModularNumberSystem::new(1_000_000_007u64);
    assert_eq!(system.pow(2, 10), 1024);
    assert_eq!(system.pow(2, 1_000_000_006), 1);
    assert_eq!(system.pow(3, 1_000_000_005), 333_333_336);
    assert_eq!(system.multiplicative_inverse(12345), 1);
    assert_eq!(system.div(5, 2), Some(5));
    assert_eq!(system.pow(1_000_000_010, 2), 9);
}

#[test]
fn modular_powers_stay_in_the_widest_number() {
    let wide = ModularNumberSystem::new(18446744073709551617u128);
    assert_eq!(wide.pow(3, 2), 9);
    assert_eq!(wide.pow(2, 64), 18446744073709551616);
    assert_eq!(wide.pow(2, 65), 18446744073709551615);
    assert_eq!(wide.pow(2, 128), 1);
    assert_eq!(wide.pow(3, 0), 1);
    let widest = ModularNumberSystem::new(u128::MAX);
    assert_eq!(widest.pow(2, 127), 1u128 << 127);
    assert_eq!(widest.pow(2, 128), 1);
    assert_eq!(widest.pow(u128::MAX - 1, 2), 1);
    assert_eq!(widest.pow(u128::MAX - 1, 3), u128::MAX - 1);
    let unit = ModularNumberSystem::new(1u8);
    assert_eq!(unit.pow(0, 3), 0);
    assert_eq!(unit.pow(0, 0), 1);
    let signed = ModularNumberSystem::new(7i8);
    assert_eq!(signed.pow(3, -2), 1);
    assert_eq!(signed.pow(3, 4), 4);
}

#[test]
fn sums_and_products_below_a_modulus_do_not_overflow() {
    assert_eq!(sum_below(3, 4, 5), 2);
    assert_eq!(sum_below(0, 0, 1), 0);
    assert_eq!(sum_below(u128::MAX - 1, u128::MAX - 1, u128::MAX), u128::MAX - 2);
    assert_eq!(sum_below(1, u128::MAX - 2, u128::MAX), u128::MAX - 1);
    assert_eq!(product_below(3, 4, 5), 2);
    assert_eq!(product_below(0, 6, 7), 0);
    assert_eq!(product_below(6, 0, 7), 0);
    assert_eq!(product_below(6, 6, 7), 1);
    assert_eq!(product_below(u128::MAX - 1, u128::MAX - 1, u128::MAX), 1);
    assert_eq!(product_below(u128::MAX - 1, 2, u128::MAX), u128::MAX - 2);
    assert_eq!(product_below(1 << 100, 1 << 100, (1u128 << 127) - 1), 1 << 73);
}

#[test]
fn ranges_count_up_to_their_end() {
    let mut range = CountdownRange { start: 3u8, end: 5, inclusive: false };
    assert_eq!(range.next(), Some(3));
    assert_eq!(range.next(), Some(4));
    assert_eq!(range.next(), None);
    let mut closed = CountdownRange { start: 254u8, end: 255, inclusive: true };
    assert_eq!(closed.next(), Some(254));
    assert_eq!(closed.next(), Some(255));
    assert_eq!(closed.next(), None);
    assert_eq!(closed.next(), None);
}

#[test]
fn numbers_are_written_in_decimal() {
    assert_eq!(write_decimal(0), "0");
    assert_eq!(write_decimal(10), "10");
    assert_eq!(write_decimal(9070), "9070");
    assert_eq!(write_decimal(u128::MAX), u128::MAX.to_string());
    assert_eq!(write_numeral(-128i8), "-128");
    assert_eq!(write_numeral(i128::MIN), i128::MIN.to_string());
    assert_eq!(write_numeral(42usize), "42");
}

#[test]
fn numbers_are_read_from_decimal() {
    assert_eq!(read_numeral::<u8>("255"), Some(255));
    assert_eq!(read_numeral::<u8>("256"), None);
    assert_eq!(read_numeral::<u8>("+7"), Some(7));
    assert_eq!(read_numeral::<u8>("-0"), None);
    assert_eq!(read_numeral::<u8>(""), None);
    assert_eq!(read_numeral::<u8>("+"), None);
    assert_eq!(read_numeral::<u8>("1a"), None);
    assert_eq!(read_numeral::<u8>("007"), Some(7));
    assert_eq!(read_numeral::<i8>("-128"), Some(-128));
    assert_eq!(read_numeral::<i8>("-129"), None);
    assert_eq!(read_numeral::<i8>("128"), None);
    assert_eq!(read_numeral::<i8>("-"), None);
    assert_eq!(
        read_numeral::<u128>("340282366920938463463374607431768211455"),
        Some(u128::MAX)
    );
    assert_eq!(read_numeral::<u128>("340282366920938463463374607431768211456"), None);
    assert_eq!(
        read_numeral::<i128>("-170141183460469231731687303715884105728"),
        Some(i128::MIN)
    );
}
