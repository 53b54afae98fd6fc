use file_serve::text::{push_chars, push_decimal, to_decimal};

#[test]
fn decimal_of_zero_is_one_digit() {
    assert_eq!(to_decimal(0), "0");
}

#[test]
fn decimal_of_small_and_large_numbers() {
    assert_eq!(to_decimal(7), "7");
    assert_eq!(to_decimal(10), "10");
    assert_eq!(to_decimal(1_234_567_890), "1234567890");
    assert_eq!(to_decimal(u64::MAX), "18446744073709551615");
}

#[test]
fn decimal_agrees_with_the_standard_library() {
    for n in [0u64, 1, 9, 10, 11, 99, 100, 101, 4096, 65_535, 1_000_000, u64::MAX - 1] {
        assert_eq!(to_decimal(n), n.to_string());
        assert_eq!(to_decimal(n).parse::<u64>(), Ok(n));
    }
}

#[test]
fn push_decimal_appends() {
    let mut s = "length: ".to_string();
    push_decimal(&mut s, 305);
    assert_eq!(s, "length: 305");
}

#[test]
fn push_chars_appends_in_order() {
    let mut s = "ab".to_string();
    push_chars(&mut s, &vec!['c', 'd', 'é']);
    assert_eq!(s, "abcdé");
    push_chars(&mut s, &vec![]);
    assert_eq!(s, "abcdé");
}
