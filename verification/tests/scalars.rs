use serde_xml_rs::scalar::{format_bool, format_int, read_bool, read_int};
use serde_xml_rs::strings::{chars_of, string_of};

#[test]
fn integers_are_written_in_decimal() {
    assert_eq!(format_int(0), "0");
    assert_eq!(format_int(5), "5");
    assert_eq!(format_int(-1), "-1");
    assert_eq!(format_int(1234567890), "1234567890");
    assert_eq!(format_int(i64::MAX), "9223372036854775807");
    assert_eq!(format_int(i64::MIN), "-9223372036854775808");
}

#[test]
fn integers_are_read_from_decimal() {
    assert_eq!(read_int("0"), Some(0));
    assert_eq!(read_int("5"), Some(5));
    assert_eq!(read_int("+5"), Some(5));
    assert_eq!(read_int("-5"), Some(-5));
    assert_eq!(read_int("007"), Some(7));
    assert_eq!(read_int("-0"), Some(0));
    assert_eq!(read_int("9223372036854775807"), Some(i64::MAX));
    assert_eq!(read_int("-9223372036854775808"), Some(i64::MIN));
    assert_eq!(read_int("0000000000000000000000000012"), Some(12));
}

#[test]
fn text_that_is_no_integer() {
    assert_eq!(read_int(""), None);
    assert_eq!(read_int("-"), None);
    assert_eq!(read_int("+"), None);
    assert_eq!(read_int("12a"), None);
    assert_eq!(read_int(" 5"), None);
    assert_eq!(read_int("5 "), None);
    assert_eq!(read_int("--5"), None);
    assert_eq!(read_int("1.5"), None);
    assert_eq!(read_int("9223372036854775808"), None);
    assert_eq!(read_int("-9223372036854775809"), None);
    assert_eq!(read_int("99999999999999999999999999"), None);
}

#[test]
fn reading_a_written_integer_gives_it_back() {
    for n in [0i64, 1, -1, 9, 10, -10, 99, 100, 65535, -65536, i64::MAX, i64::MIN] {
        assert_eq!(read_int(&format_int(n)), Some(n));
    }
}

#[test]
fn booleans_are_true_and_false() {
    assert_eq!(format_bool(true), "true");
    assert_eq!(format_bool(false), "false");
    assert_eq!(read_bool("true"), Some(true));
    assert_eq!(read_bool("false"), Some(false));
    assert_eq!(read_bool("True"), None);
    assert_eq!(read_bool("1"), None);
    assert_eq!(read_bool(""), None);
    assert_eq!(read_bool("true "), None);
}

#[test]
fn strings_and_their_characters() {
    assert_eq!(chars_of("héllo"), vec!['h', 'é', 'l', 'l', 'o']);
    assert_eq!(chars_of(""), Vec::<char>::new());
    let v = vec!['a', 'b', 'c', 'd'];
    assert_eq!(string_of(&v, 1, 3), "bc");
    assert_eq!(string_of(&v, 0, 4), "abcd");
    assert_eq!(string_of(&v, 2, 2), "");
}
