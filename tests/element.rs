use commuter::element::Element;

#[test]
fn integers_are_named_in_decimal() {
    assert_eq!(0i32.name(), "0");
    assert_eq!(42i32.name(), "42");
    assert_eq!((-7i32).name(), "-7");
    assert_eq!(i32::MIN.name(), "-2147483648");
    assert_eq!(i64::MIN.name(), "-9223372036854775808");
    assert_eq!(i64::MAX.name(), "9223372036854775807");
    assert_eq!(u64::MAX.name(), "18446744073709551615");
    assert_eq!(1000u32.name(), "1000");
    assert_eq!(10usize.name(), "10");
}

#[test]
fn booleans_are_named() {
    assert_eq!(true.name(), "true");
    assert_eq!(false.name(), "false");
}

#[test]
fn tuples_are_named_like_debug() {
    assert_eq!((1i32, -2i32).name(), "(1, -2)");
    assert_eq!((0i32, 0i32, 4i32).name(), "(0, 0, 4)");
    assert_eq!((1i32, (true, 3u64)).name(), "(1, (true, 3))");
}

#[test]
fn equality_is_structural() {
    assert!(Element::eq(&(1i32, 2i32), &(1i32, 2i32)));
    assert!(!Element::eq(&(1i32, 2i32), &(2i32, 1i32)));
    assert!(Element::eq(&(1i64, 2u32, false), &(1i64, 2u32, false)));
    assert!(!Element::eq(&(1i64, 2u32, false), &(1i64, 2u32, true)));
    assert!(!Element::eq(&5usize, &6usize));
}
