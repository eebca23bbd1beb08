use ironkernel::ints::{range, to_str_bytes};

#[test]
fn range_counts_up() {
    assert_eq!(range(2, 5), vec![2, 3, 4]);
}

#[test]
fn range_empty_when_reversed() {
    assert!(range(5, 2).is_empty());
    assert!(range(7, 7).is_empty());
}

#[test]
fn formats_zero() {
    assert_eq!(to_str_bytes(0, 10), b"0".to_vec());
}

#[test]
fn formats_decimal() {
    assert_eq!(to_str_bytes(1234567890, 10), b"1234567890".to_vec());
    assert_eq!(to_str_bytes(-42, 10), b"-42".to_vec());
}

#[test]
fn formats_other_radixes() {
    assert_eq!(to_str_bytes(-255, 16), b"-ff".to_vec());
    assert_eq!(to_str_bytes(5, 2), b"101".to_vec());
    assert_eq!(to_str_bytes(35, 36), b"z".to_vec());
    assert_eq!(to_str_bytes(36, 36), b"10".to_vec());
}

#[test]
fn formats_extremes() {
    assert_eq!(to_str_bytes(isize::MAX, 16), b"7fffffffffffffff".to_vec());
    assert_eq!(to_str_bytes(isize::MIN + 1, 10), b"-9223372036854775807".to_vec());
}

#[test]
fn formats_the_smallest_value() {
    assert_eq!(to_str_bytes(isize::MIN, 10), b"-9223372036854775808".to_vec());
    assert_eq!(to_str_bytes(isize::MIN, 16), b"-8000000000000000".to_vec());
    let bin = to_str_bytes(isize::MIN, 2);
    assert_eq!(bin.len(), 65);
    assert_eq!(&bin[..2], b"-1");
    assert!(bin[2..].iter().all(|b| *b == b'0'));
}

#[test]
fn formats_large_radixes() {
    assert_eq!(to_str_bytes(255, 40), b"6f".to_vec());
    assert_eq!(to_str_bytes(300, 300), b"10".to_vec());
    assert_eq!(to_str_bytes(266, 1000), b"a".to_vec());
    assert_eq!(to_str_bytes(299, 300), vec![130u8]);
}

#[test]
fn radix_one_formats_zero() {
    assert_eq!(to_str_bytes(0, 1), b"0".to_vec());
}
