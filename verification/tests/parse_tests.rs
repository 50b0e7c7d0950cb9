use ip_calculator::convert::{is_cidr_or_mask, parse_mask_or_cidr, MaskOrCidr};
use ip_calculator::errors::IpCalculatorError;
use ip_calculator::parse::{check_ip, check_mask, parse_ipv4, parse_prefix};

fn ip(a: u32, b: u32, c: u32, d: u32) -> u32 {
    (a << 24) | (b << 16) | (c << 8) | d
}

#[test]
fn parse_ipv4_accepts_valid_literals() {
    assert_eq!(parse_ipv4("0.0.0.0"), Some(0));
    assert_eq!(parse_ipv4("192.168.1.0"), Some(ip(192, 168, 1, 0)));
    assert_eq!(parse_ipv4("255.255.255.255"), Some(0xFFFF_FFFF));
    assert_eq!(parse_ipv4("10.0.0.1"), Some(ip(10, 0, 0, 1)));
}

#[test]
fn parse_ipv4_rejects_malformed_literals() {
    assert_eq!(parse_ipv4(""), None);
    assert_eq!(parse_ipv4("1.2.3"), None);
    assert_eq!(parse_ipv4("1.2.3.4.5"), None);
    assert_eq!(parse_ipv4("256.1.1.1"), None);
    assert_eq!(parse_ipv4("01.2.3.4"), None);
    assert_eq!(parse_ipv4("a.b.c.d"), None);
    assert_eq!(parse_ipv4("1..2.3"), None);
    assert_eq!(parse_ipv4("1.2.3."), None);
}

#[test]
fn parse_prefix_bounds() {
    assert_eq!(parse_prefix("0"), Some(0));
    assert_eq!(parse_prefix("24"), Some(24));
    assert_eq!(parse_prefix("32"), Some(32));
    assert_eq!(parse_prefix("33"), None);
    assert_eq!(parse_prefix(""), None);
    assert_eq!(parse_prefix("x"), None);
}

#[test]
fn parse_prefix_integer_parse_shapes() {
    // the shapes an unsigned integer parse accepts: a plus sign and
    // leading zeros
    assert_eq!(parse_prefix("+8"), Some(8));
    assert_eq!(parse_prefix("0008"), Some(8));
    assert_eq!(parse_prefix("+032"), Some(32));
    assert_eq!(parse_prefix("+"), None);
    assert_eq!(parse_prefix("++8"), None);
    assert_eq!(parse_prefix("8+"), None);
}

#[test]
fn check_ip_valid_and_invalid() {
    assert_eq!(check_ip("192.168.1.1"), Ok(true));
    assert_eq!(check_ip("10.0.0.1"), Ok(true));
    assert_eq!(check_ip("300.0.0.1"), Err(IpCalculatorError::IpError));
    assert_eq!(check_ip("not-an-ip"), Err(IpCalculatorError::IpError));
}

#[test]
fn check_mask_accepts_cidr_numbers() {
    assert_eq!(check_mask("24"), Ok(true));
    assert_eq!(check_mask("0"), Ok(true));
    assert_eq!(check_mask("32"), Ok(true));
    // a bare number that fits a byte but exceeds 32 is a well-formed input
    // that is not a valid prefix
    assert_eq!(check_mask("33"), Ok(false));
    // integer-parse shapes count as numbers
    assert_eq!(check_mask("+24"), Ok(true));
    assert_eq!(check_mask("0024"), Ok(true));
}

#[test]
fn check_mask_accepts_dotted_masks() {
    assert_eq!(check_mask("255.255.255.0"), Ok(true));
    assert_eq!(check_mask("255.0.0.0"), Ok(true));
    assert_eq!(check_mask("0.0.0.0"), Ok(true));
    assert_eq!(check_mask("255.255.255.1"), Ok(false));
}

#[test]
fn check_mask_rejects_garbage() {
    assert_eq!(check_mask("hello"), Err(IpCalculatorError::InvalidMask));
    assert_eq!(check_mask("999"), Err(IpCalculatorError::InvalidMask));
}

#[test]
fn is_cidr_or_mask_classifies() {
    assert_eq!(is_cidr_or_mask("24"), Ok("CIDR"));
    assert_eq!(is_cidr_or_mask("0"), Ok("CIDR"));
    assert_eq!(is_cidr_or_mask("255.255.255.0"), Ok("Mask"));
    assert_eq!(is_cidr_or_mask("45"), Err(IpCalculatorError::ConversionError));
    assert_eq!(
        is_cidr_or_mask("255.255.255.1"),
        Err(IpCalculatorError::ConversionError)
    );
    assert_eq!(is_cidr_or_mask("abc"), Err(IpCalculatorError::ConversionError));
    assert_eq!(is_cidr_or_mask("999"), Err(IpCalculatorError::ConversionError));
}

#[test]
fn parse_mask_or_cidr_converts_both_ways() {
    assert_eq!(
        parse_mask_or_cidr("24", "mask"),
        Ok(MaskOrCidr::Mask(0xFFFF_FF00))
    );
    assert_eq!(
        parse_mask_or_cidr("255.255.255.0", "cidr"),
        Ok(MaskOrCidr::Cidr(24))
    );
    assert_eq!(parse_mask_or_cidr("24", "cidr"), Ok(MaskOrCidr::Cidr(24)));
    assert_eq!(
        parse_mask_or_cidr("255.255.0.0", "mask"),
        Ok(MaskOrCidr::Mask(0xFFFF_0000))
    );
}

#[test]
fn parse_mask_or_cidr_rejects_bad_targets_and_inputs() {
    assert_eq!(
        parse_mask_or_cidr("24", "other"),
        Err(IpCalculatorError::ConversionError)
    );
    assert_eq!(
        parse_mask_or_cidr("45", "mask"),
        Err(IpCalculatorError::ConversionError)
    );
    assert_eq!(
        parse_mask_or_cidr("abc", "mask"),
        Err(IpCalculatorError::ConversionError)
    );
}
