use manifold::keys::Key;
use manifold::types::Value;
use std::cmp::Ordering;

#[test]
fn test_integer_keys_compare_by_value() {
    // Little-endian bytes of 255 sort after those of 256, the values do not.
    let a = <u64>::as_bytes(&255);
    let b = <u64>::as_bytes(&256);
    assert_eq!(<u64>::compare(&a, &b), Ordering::Less);
    assert_eq!(<u64>::compare(&b, &a), Ordering::Greater);
    assert_eq!(<u64>::compare(&a, &a), Ordering::Equal);
    let a = <u16>::as_bytes(&1);
    let b = <u16>::as_bytes(&65535);
    assert_eq!(<u16>::compare(&a, &b), Ordering::Less);
    let a = <u128>::as_bytes(&u128::MAX);
    let b = <u128>::as_bytes(&0);
    assert_eq!(<u128>::compare(&a, &b), Ordering::Greater);
}

#[test]
fn test_string_keys_compare_lexicographically() {
    let ab = <&str>::as_bytes(&"ab");
    let abc = <&str>::as_bytes(&"abc");
    let b = <&str>::as_bytes(&"b");
    assert_eq!(<&str>::compare(&ab, &abc), Ordering::Less);
    assert_eq!(<&str>::compare(&b, &abc), Ordering::Greater);
    assert_eq!(<&str>::compare(&ab, &ab), Ordering::Equal);
    assert_eq!(<&[u8]>::compare(&[1, 2], &[1, 2, 0]), Ordering::Less);
    assert_eq!(<&[u8]>::compare(&[], &[]), Ordering::Equal);
}

#[test]
fn test_vec_encoding_bytes() {
    // Length, then each string after its own length.
    let v: Vec<&str> = vec!["ab", ""];
    assert_eq!(<Vec<&str>>::as_bytes(&v), vec![2, 2, b'a', b'b', 0]);
    // Fixed-width elements carry no length of their own.
    let v: Vec<u16> = vec![1, 258];
    assert_eq!(<Vec<u16>>::as_bytes(&v), vec![2, 1, 0, 2, 1]);
}

#[test]
fn test_tuple_encoding_bytes() {
    // A variable-width field before the last carries its length; the last does not.
    assert_eq!(<(&str, &str)>::as_bytes(&("ab", "c")), vec![2, b'a', b'b', b'c']);
    assert_eq!(<(u8, &str)>::as_bytes(&(7, "xy")), vec![7, b'x', b'y']);
    assert_eq!(<(u8,)>::value_type_name().name(), "(u8,)");
    assert_eq!(<(u8, &str)>::value_type_name().name(), "(u8,&str)");
}
