use dns_codec::class::Class;
use dns_codec::errors::DnsError;

#[test]
fn test_class_conversion() {
    assert_eq!(Class::try_from_value(1), Ok(Class::IN));
    assert_eq!(Class::try_from_value(2), Ok(Class::CS));
    assert_eq!(Class::try_from_value(3), Ok(Class::CH));
    assert_eq!(Class::try_from_value(4), Ok(Class::HS));
    // Test error case
    assert_eq!(Class::try_from_value(0), Err(DnsError::InvalidEnumValue));
    assert_eq!(Class::try_from_value(5), Err(DnsError::InvalidEnumValue));
    assert_eq!(Class::try_from_value(123), Err(DnsError::InvalidEnumValue));
}

#[test]
fn test_class_new() {
    // A simple test packet that is too short and should fail.
    let bad_packet = &[0x00, 0x01];
    assert_eq!(Class::new(bad_packet, 1), Err(DnsError::TooShort));

    let packet = &[
        // Start of some fake domain name (not relevant for this test)
        0x03, 0x77, 0x77, 0x77, // "www"
        0x06, 0x67, 0x6f, 0x6f, 0x67, 0x6c, 0x65, // "google"
        0x03, 0x63, 0x6f, 0x6d, // "com"
        0x00, // end of name
        0x00, 0x01, // RecordType (e.g. 0x00, 0x01 for A)
        0x00, 0x01, // Class (e.g. 0x00, 0x01 for IN)
    ];

    // domain_name_len is position after domain name (should be 17 for above)
    let domain_name_len = 16;
    assert_eq!(Class::new(packet, domain_name_len), Ok(Class::IN));
}

#[test]
fn class_decode_is_total_on_closed_set() {
    // Exhaustive over every 16-bit value: decode succeeds exactly on
    // 1..=4, and the decoded variant encodes back to its wire value.
    for value in 0..=u16::MAX {
        match Class::try_from_value(value) {
            Ok(c) => {
                assert!((1..=4).contains(&value));
                assert_eq!(c.value(), value);
            }
            Err(e) => {
                assert!(!(1..=4).contains(&value));
                assert_eq!(e, DnsError::InvalidEnumValue);
            }
        }
    }
}
