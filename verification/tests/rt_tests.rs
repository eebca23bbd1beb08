use ironkernel::rt::{
    __divdi3, __divmoddi4, __moddi3, __mulodi4, __udivdi3, __udivmoddi4, __umoddi3, udivmoddi4,
};

fn check_unsigned(a: u64, b: u64) {
    assert_eq!(udivmoddi4(a, b), (a / b, a % b), "{} / {}", a, b);
    assert_eq!(__udivdi3(a, b), a / b);
    assert_eq!(__umoddi3(a, b), a % b);
    let mut r = 0u64;
    assert_eq!(__udivmoddi4(a, b, &mut r), a / b);
    assert_eq!(r, a % b);
}

#[test]
fn unsigned_small_by_small() {
    check_unsigned(100, 7);
    check_unsigned(0xffff_ffff, 1);
    check_unsigned(0xffff_ffff, 0xffff_fffe);
}

#[test]
fn unsigned_small_by_large() {
    check_unsigned(12345, 0x1_0000_0000);
    check_unsigned(0, 0xdead_beef_0000_0001);
}

#[test]
fn unsigned_divisor_low_half_zero() {
    check_unsigned(0x1234_5678_0000_0000, 0x0000_0003_0000_0000);
    check_unsigned(0x1234_5678_9abc_def0, 0x0000_0010_0000_0000);
    check_unsigned(0x1234_5678_9abc_def0, 0x0000_0007_0000_0000);
    check_unsigned(0x0000_0001_0000_0005, 0x8000_0000_0000_0000);
}

#[test]
fn unsigned_divisor_high_half_zero() {
    check_unsigned(0x1234_5678_9abc_def0, 1);
    check_unsigned(0x1234_5678_9abc_def0, 64);
    check_unsigned(0x1234_5678_9abc_def0, 1000);
    check_unsigned(u64::MAX, 3);
    check_unsigned(u64::MAX, 0xffff_ffff);
}

#[test]
fn unsigned_both_halves() {
    check_unsigned(u64::MAX, 0x1_0000_0001);
    check_unsigned(0x8000_0000_0000_0000, 0x8000_0000_0000_0001);
    check_unsigned(u64::MAX, u64::MAX);
    check_unsigned(0x0000_0002_0000_0000, 0x0000_0003_0000_0001);
}

#[test]
fn unsigned_sweep() {
    let samples = [
        1u64, 2, 3, 7, 0xff, 0x1_0000, 0xffff_ffff, 0x1_0000_0000, 0x1_0000_0001,
        0x1234_5678_9abc_def0, 0x7fff_ffff_ffff_ffff, 0x8000_0000_0000_0000, u64::MAX,
    ];
    for &a in samples.iter() {
        for &b in samples.iter() {
            check_unsigned(a, b);
        }
    }
}

#[test]
fn signed_division_rounds_toward_zero() {
    assert_eq!(__divdi3(7, 2), 3);
    assert_eq!(__divdi3(-7, 2), -3);
    assert_eq!(__divdi3(7, -2), -3);
    assert_eq!(__divdi3(-7, -2), 3);
    assert_eq!(__divdi3(i64::MIN, 1), i64::MIN);
    assert_eq!(__divdi3(i64::MIN, 2), i64::MIN / 2);
}

#[test]
fn signed_division_overflow_wraps() {
    assert_eq!(__divdi3(i64::MIN, -1), i64::MIN);
}

#[test]
fn signed_remainder_has_sign_of_dividend() {
    assert_eq!(__moddi3(7, 2), 1);
    assert_eq!(__moddi3(-7, 2), -1);
    assert_eq!(__moddi3(7, -2), 1);
    assert_eq!(__moddi3(-7, -2), -1);
    assert_eq!(__moddi3(i64::MIN, -1), 0);
    assert_eq!(__moddi3(i64::MIN, 3), i64::MIN % 3);
}

#[test]
fn signed_divmod() {
    let mut rem = 0i64;
    assert_eq!(__divmoddi4(-17, 5, &mut rem), -3);
    assert_eq!(rem, -2);
    assert_eq!(__divmoddi4(i64::MIN, -1, &mut rem), i64::MIN);
    assert_eq!(rem, 0);
}

#[test]
fn multiplication_overflow_flag() {
    let mut o: isize = 7;
    assert_eq!(__mulodi4(6, 7, &mut o), 42);
    assert_eq!(o, 0);
    assert_eq!(__mulodi4(i64::MAX, 2, &mut o), i64::MAX.wrapping_mul(2));
    assert_eq!(o, 1);
    assert_eq!(__mulodi4(i64::MIN, 1, &mut o), i64::MIN);
    assert_eq!(o, 0);
    assert_eq!(__mulodi4(i64::MIN, -1, &mut o), i64::MIN);
    assert_eq!(o, 1);
    assert_eq!(__mulodi4(-1, i64::MIN, &mut o), i64::MIN);
    assert_eq!(o, 1);
    assert_eq!(__mulodi4(0, i64::MIN, &mut o), 0);
    assert_eq!(o, 0);
    assert_eq!(__mulodi4(-(1i64 << 31), 1i64 << 32, &mut o), i64::MIN);
    assert_eq!(o, 0);
    assert_eq!(__mulodi4(1i64 << 32, 1i64 << 31, &mut o), i64::MIN);
    assert_eq!(o, 1);
    assert_eq!(__mulodi4(-3_000_000_000, 3_000_000_000, &mut o), (-3_000_000_000i64).wrapping_mul(3_000_000_000));
    assert_eq!(o, 0);
    assert_eq!(__mulodi4(-4_000_000_000, 4_000_000_000, &mut o), (-4_000_000_000i64).wrapping_mul(4_000_000_000));
    assert_eq!(o, 1);
}
