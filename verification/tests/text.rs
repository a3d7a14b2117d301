use dioxus_helmet::text::decimal_string;
use dioxus_helmet::text::order_names;
use dioxus_helmet::text::signed_decimal_string;
use dioxus_helmet::text::truth_string;
use dioxus_helmet::text::NameOrder;

#[test]
fn decimal_of_zero_is_a_single_zero() {
    assert_eq!(decimal_string(0), "0");
}

#[test]
fn decimal_of_small_numbers() {
    assert_eq!(decimal_string(7), "7");
    assert_eq!(decimal_string(10), "10");
    assert_eq!(decimal_string(42), "42");
    assert_eq!(decimal_string(1000), "1000");
    assert_eq!(decimal_string(9090), "9090");
}

#[test]
fn decimal_of_the_largest_number() {
    assert_eq!(decimal_string(u64::MAX), "18446744073709551615");
}

#[test]
fn decimal_agrees_with_the_standard_library() {
    let samples: Vec<u64> = vec![1, 9, 11, 99, 100, 101, 12345, 1 << 32, 123_456_789_012_345_678];
    for n in samples {
        assert_eq!(decimal_string(n), n.to_string());
    }
}

#[test]
fn signed_decimal_has_no_sign_for_zero_and_above() {
    assert_eq!(signed_decimal_string(0), "0");
    assert_eq!(signed_decimal_string(5), "5");
    assert_eq!(signed_decimal_string(i64::MAX), "9223372036854775807");
}

#[test]
fn signed_decimal_has_a_minus_sign_below_zero() {
    assert_eq!(signed_decimal_string(-1), "-1");
    assert_eq!(signed_decimal_string(-250), "-250");
    assert_eq!(signed_decimal_string(i64::MIN), "-9223372036854775808");
}

#[test]
fn truth_values_are_written_in_lower_case() {
    assert_eq!(truth_string(true), "true");
    assert_eq!(truth_string(false), "false");
}

#[test]
fn names_are_ordered_like_a_dictionary() {
    assert_eq!(order_names("a", "b"), NameOrder::Before);
    assert_eq!(order_names("b", "a"), NameOrder::After);
    assert_eq!(order_names("href", "rel"), NameOrder::Before);
    assert_eq!(order_names("content", "name"), NameOrder::Before);
    assert_eq!(order_names("rel", "rel"), NameOrder::Same);
}

#[test]
fn a_name_stands_before_its_extensions() {
    assert_eq!(order_names("", "a"), NameOrder::Before);
    assert_eq!(order_names("data", "data-id"), NameOrder::Before);
    assert_eq!(order_names("data-id", "data"), NameOrder::After);
    assert_eq!(order_names("", ""), NameOrder::Same);
}

#[test]
fn names_are_ordered_by_their_bytes() {
    assert_eq!(order_names("Z", "a"), NameOrder::Before);
    assert_eq!(order_names("z", "\u{e9}"), NameOrder::Before);
    assert_eq!(order_names("\u{e9}", "\u{4e2d}"), NameOrder::Before);
    assert_eq!(order_names("\u{4e2d}", "\u{4e2d}"), NameOrder::Same);
}

#[test]
fn the_order_of_names_agrees_with_the_standard_library() {
    let names = ["", "a", "ab", "b", "rel", "href", "data-helmet-id", "\u{e9}t\u{e9}"];
    for a in names {
        for b in names {
            let expected = if a < b {
                NameOrder::Before
            } else if a == b {
                NameOrder::Same
            } else {
                NameOrder::After
            };
            assert_eq!(order_names(a, b), expected);
        }
    }
}

#[test]
fn different_numbers_are_written_differently() {
    let samples: Vec<u64> = vec![0, 1, 9, 10, 11, 19, 90, 99, 100, 101, 110, 1000, u64::MAX - 1, u64::MAX];
    for a in &samples {
        for b in &samples {
            assert_eq!(decimal_string(*a) == decimal_string(*b), a == b);
        }
    }
}
