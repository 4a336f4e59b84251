use payments_processor::report::format_amount;

#[test]
fn test_format_amount_whole_and_fraction() {
    assert_eq!(format_amount(10000), "1.0000");
    assert_eq!(format_amount(0), "0.0000");
    assert_eq!(format_amount(123), "0.0123");
    assert_eq!(format_amount(15000), "1.5000");
    assert_eq!(format_amount(1000000), "100.0000");
    assert_eq!(format_amount(12345678), "1234.5678");
}

#[test]
fn test_format_amount_negative() {
    assert_eq!(format_amount(-25500), "-2.5500");
    assert_eq!(format_amount(-1), "-0.0001");
    assert_eq!(format_amount(i64::MIN), "-922337203685477.5808");
    assert_eq!(format_amount(i64::MAX), "922337203685477.5807");
}
