use info_radiator::text::{chars_of, decimal_i64, decimal_u64, join_chars, replace_str, string_of};

fn s(v: Vec<char>) -> String {
    v.into_iter().collect()
}

#[test]
fn decimal_formatting() {
    assert_eq!(s(decimal_u64(0)), "0");
    assert_eq!(s(decimal_u64(1234567890)), "1234567890");
    assert_eq!(s(decimal_u64(u64::MAX)), u64::MAX.to_string());
    assert_eq!(s(decimal_i64(-45)), "-45");
    assert_eq!(s(decimal_i64(i64::MIN)), i64::MIN.to_string());
    assert_eq!(s(decimal_i64(7)), "7");
}

#[test]
fn replacement_is_left_to_right_and_non_overlapping() {
    assert_eq!(replace_str("aaaa", "aa", "b"), "bb");
    assert_eq!(replace_str("aaa", "aa", "b"), "ba");
    assert_eq!(replace_str("abcabc", "bc", "X"), "aXaX");
    assert_eq!(replace_str("abc", "zz", "X"), "abc");
    assert_eq!(replace_str("", "a", "X"), "");
    assert_eq!(replace_str("äöä", "ä", "a"), "aöa");
}

#[test]
fn chars_round_trip_and_join() {
    assert_eq!(string_of(&chars_of("Hyvää päivää")), "Hyvää päivää");
    let parts = vec![chars_of("a"), chars_of("bc"), chars_of("")];
    assert_eq!(s(join_chars(&parts, &chars_of(", "))), "a, bc, ");
    assert_eq!(s(join_chars(&vec![], &chars_of(","))), "");
}
