use flyio::text::decimal_text;

#[test]
fn decimal_of_zero_and_of_the_largest_number() {
    assert_eq!(decimal_text(0), "0");
    assert_eq!(decimal_text(u64::MAX), "18446744073709551615");
}
