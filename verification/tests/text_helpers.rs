use markdown_records::text::{decimal_string, join};

fn strings(parts: &[&str]) -> Vec<String> {
    parts.iter().map(|s| s.to_string()).collect()
}

#[test]
fn join_of_nothing_is_empty() {
    assert_eq!(join(&strings(&[])), "");
}

#[test]
fn join_of_one_part_is_the_part() {
    assert_eq!(join(&strings(&["alone"])), "alone");
}

#[test]
fn join_puts_one_space_between_parts() {
    assert_eq!(join(&strings(&["a", "b", "c"])), "a b c");
}

#[test]
fn join_keeps_the_spaces_of_the_parts() {
    assert_eq!(join(&strings(&["some ", "inline", " code."])), "some  inline  code.");
}

#[test]
fn join_of_empty_parts_keeps_the_separators() {
    assert_eq!(join(&strings(&["", ""])), " ");
    assert_eq!(join(&strings(&["", "x", ""])), " x ");
}

#[test]
fn join_agrees_with_the_standard_join() {
    let cases: [&[&str]; 5] = [&[], &["a"], &["a", ""], &["", "a"], &["one", "two", "three", "four"]];
    for case in cases {
        let parts = strings(case);
        assert_eq!(join(&parts), parts.join(" "));
    }
}

#[test]
fn decimal_of_single_digits() {
    assert_eq!(decimal_string(0), "0");
    assert_eq!(decimal_string(7), "7");
    assert_eq!(decimal_string(9), "9");
}

#[test]
fn decimal_of_several_digits() {
    assert_eq!(decimal_string(10), "10");
    assert_eq!(decimal_string(99), "99");
    assert_eq!(decimal_string(100), "100");
    assert_eq!(decimal_string(12345), "12345");
    assert_eq!(decimal_string(9876543210), "9876543210");
}

#[test]
fn decimal_of_the_largest_number() {
    assert_eq!(decimal_string(u64::MAX), "18446744073709551615");
}

#[test]
fn decimal_agrees_with_the_standard_formatting() {
    let mut n: u64 = 1;
    for _ in 0..19 {
        assert_eq!(decimal_string(n), format!("{}", n));
        assert_eq!(decimal_string(n - 1), format!("{}", n - 1));
        n *= 10;
    }
}
