use ledger::amount::{count_remove_trailing_zeroes, scaled_text, Amount, ParseAmountError};

#[test]
fn amount_formatting() {
    assert_eq!(Amount::new(0).to_string(), "0");
    assert_eq!(Amount::new(10000).to_string(), "1");
    assert_eq!(Amount::new(11000).to_string(), "1.1");
    assert_eq!(Amount::new(10100).to_string(), "1.01");
    assert_eq!(Amount::new(10010).to_string(), "1.001");
    assert_eq!(Amount::new(10001).to_string(), "1.0001");
    assert_eq!(Amount::new(11100).to_string(), "1.11");
    assert_eq!(Amount::new(10110).to_string(), "1.011");
    assert_eq!(Amount::new(10011).to_string(), "1.0011");
    assert_eq!(Amount::new(11110).to_string(), "1.111");
    assert_eq!(Amount::new(10111).to_string(), "1.0111");
    assert_eq!(Amount::new(11111).to_string(), "1.1111");
    assert_eq!(Amount::new(9999990000).to_string(), "999999");
    assert_eq!(Amount::new(9999990100).to_string(), "999999.01");
    assert_eq!(Amount::new(-10000).to_string(), "-1");
    assert_eq!(Amount::new(-11000).to_string(), "-1.1");
    assert_eq!(Amount::new(-10100).to_string(), "-1.01");
    assert_eq!(Amount::new(-10110).to_string(), "-1.011");
    assert_eq!(Amount::new(-10011).to_string(), "-1.0011");
}

#[test]
fn adding() {
    assert_eq!(Amount::new(11111) + Amount::new(0), Amount::new(11111));
    assert_eq!(Amount::new(0) + Amount::new(11111), Amount::new(11111));
    assert_eq!(Amount::new(11111) + Amount::new(11111), Amount::new(22222));
}

#[test]
fn subtracting() {
    assert_eq!(Amount::new(11111) - Amount::new(0), Amount::new(11111));
    assert_eq!(Amount::new(22222) - Amount::new(11111), Amount::new(11111));
    assert_eq!(Amount::new(10001) - Amount::new(10000), Amount::new(1));
    assert_eq!(Amount::new(10001) - Amount::new(10001), Amount::new(0));
    assert_eq!(Amount::new(10000) - Amount::new(10001), Amount::new(-1));
}

#[test]
fn counting_and_removing_trailing_zeroes() {
    assert_eq!(count_remove_trailing_zeroes(0), (0, 0));
    assert_eq!(count_remove_trailing_zeroes(1), (0, 1));
    assert_eq!(count_remove_trailing_zeroes(9), (0, 9));
    assert_eq!(count_remove_trailing_zeroes(10), (1, 1));
    assert_eq!(count_remove_trailing_zeroes(90), (1, 9));
    assert_eq!(count_remove_trailing_zeroes(100), (2, 1));
    assert_eq!(count_remove_trailing_zeroes(5000), (3, 5));
    assert_eq!(count_remove_trailing_zeroes(900090), (1, 90009));
    assert_eq!(count_remove_trailing_zeroes(50000000000), (10, 5));
}

#[test]
fn negative_values_keep_their_sign_below_one_unit() {
    assert_eq!(Amount::new(-5000).to_string(), "-0.5");
    assert_eq!(Amount::new(-1).to_string(), "-0.0001");
    assert_eq!(Amount::new(5000).to_string(), "0.5");
}

#[test]
fn extreme_amounts_format() {
    assert_eq!(Amount::new(i64::MAX).to_string(), "922337203685477.5807");
    assert_eq!(Amount::new(i64::MIN).to_string(), "-922337203685477.5808");
    assert_eq!(scaled_text(-(1i128 << 64)), "-1844674407370955.1616");
}

#[test]
fn trunc_and_fract() {
    assert_eq!(Amount::new(12345).trunc(), 1);
    assert_eq!(Amount::new(12345).fract(), 2345);
    assert_eq!(Amount::new(-12345).trunc(), -1);
    assert_eq!(Amount::new(-12345).fract(), -2345);
    assert_eq!(Amount::new(9999).trunc(), 0);
}

#[test]
fn parse_reads_whole_and_fractional_units() {
    assert_eq!(Amount::parse("1.5"), Ok(Amount::new(15000)));
    assert_eq!(Amount::parse("5"), Ok(Amount::new(50000)));
    assert_eq!(Amount::parse("-1.5"), Ok(Amount::new(-15000)));
    assert_eq!(Amount::parse("+2.25"), Ok(Amount::new(22500)));
    assert_eq!(Amount::parse("0.0003"), Ok(Amount::new(3)));
    assert_eq!(Amount::parse("1."), Ok(Amount::new(10000)));
    assert_eq!(Amount::parse("007.10"), Ok(Amount::new(71000)));
}

#[test]
fn parse_cuts_digits_past_the_fourth() {
    assert_eq!(Amount::parse("1.23456789"), Ok(Amount::new(12345)));
}

#[test]
fn parse_rejects_malformed_text() {
    assert_eq!(Amount::parse(""), Err(ParseAmountError::Malformed));
    assert_eq!(Amount::parse("-"), Err(ParseAmountError::Malformed));
    assert_eq!(Amount::parse(".5"), Err(ParseAmountError::Malformed));
    assert_eq!(Amount::parse("1.2.3"), Err(ParseAmountError::Malformed));
    assert_eq!(Amount::parse("1a"), Err(ParseAmountError::Malformed));
    assert_eq!(Amount::parse("1.x"), Err(ParseAmountError::Malformed));
    assert_eq!(Amount::parse(" 1"), Err(ParseAmountError::Malformed));
}

#[test]
fn parse_rejects_values_out_of_range() {
    assert_eq!(Amount::parse("922337203685477.5807"), Ok(Amount::new(i64::MAX)));
    assert_eq!(Amount::parse("-922337203685477.5808"), Ok(Amount::new(i64::MIN)));
    assert_eq!(Amount::parse("922337203685477.5808"), Err(ParseAmountError::OutOfRange));
    assert_eq!(
        Amount::parse("99999999999999999999999999"),
        Err(ParseAmountError::OutOfRange)
    );
}

#[test]
fn format_of_parse_gives_canonical_text() {
    for (text, canonical) in [
        ("1.5000", "1.5"),
        ("0.0100", "0.01"),
        ("12", "12"),
        ("-3.0001", "-3.0001"),
        ("7.0", "7"),
        ("0", "0"),
    ] {
        assert_eq!(Amount::parse(text).unwrap().to_string(), canonical);
    }
}

#[test]
fn subtracting_what_was_added_gives_back_the_start() {
    let a = Amount::new(-123456789);
    let b = Amount::new(987654321);
    assert_eq!((a + b) - b, a);
    assert_eq!((a + b).value, 864197532);
}

#[test]
fn amounts_order_by_value() {
    assert!(Amount::new(-1) < Amount::new(0));
    assert!(Amount::new(10001) > Amount::new(10000));
}
