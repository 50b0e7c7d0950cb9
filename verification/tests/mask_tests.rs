use ip_calculator::errors::IpCalculatorError;
use ip_calculator::mask::{cidr_to_mask, mask_to_cidr};

#[test]
fn cidr_to_mask_exact_values() {
    assert_eq!(cidr_to_mask(0).unwrap(), 0x0000_0000);
    assert_eq!(cidr_to_mask(1).unwrap(), 0x8000_0000);
    assert_eq!(cidr_to_mask(8).unwrap(), 0xFF00_0000);
    assert_eq!(cidr_to_mask(16).unwrap(), 0xFFFF_0000);
    assert_eq!(cidr_to_mask(24).unwrap(), 0xFFFF_FF00);
    assert_eq!(cidr_to_mask(26).unwrap(), 0xFFFF_FFC0);
    assert_eq!(cidr_to_mask(31).unwrap(), 0xFFFF_FFFE);
    assert_eq!(cidr_to_mask(32).unwrap(), 0xFFFF_FFFF);
}

#[test]
fn cidr_to_mask_rejects_prefix_above_32() {
    assert_eq!(cidr_to_mask(33), Err(IpCalculatorError::InvalidPrefix));
    assert_eq!(cidr_to_mask(255), Err(IpCalculatorError::InvalidPrefix));
}

#[test]
fn mask_to_cidr_exact_values() {
    assert_eq!(mask_to_cidr(0x0000_0000).unwrap(), 0);
    assert_eq!(mask_to_cidr(0xFF00_0000).unwrap(), 8);
    assert_eq!(mask_to_cidr(0xFFFF_FF00).unwrap(), 24);
    assert_eq!(mask_to_cidr(0xFFFF_FFFE).unwrap(), 31);
    assert_eq!(mask_to_cidr(0xFFFF_FFFF).unwrap(), 32);
}

#[test]
fn mask_to_cidr_rejects_non_contiguous() {
    // 255.255.255.1
    assert_eq!(mask_to_cidr(0xFFFF_FF01), Err(IpCalculatorError::InvalidMask));
    // 255.0.255.0
    assert_eq!(mask_to_cidr(0xFF00_FF00), Err(IpCalculatorError::InvalidMask));
    // 0.0.0.1
    assert_eq!(mask_to_cidr(0x0000_0001), Err(IpCalculatorError::InvalidMask));
}

#[test]
fn mask_cidr_round_trip_all_prefixes() {
    for prefix in 0u8..=32 {
        let mask = cidr_to_mask(prefix).unwrap();
        let back = mask_to_cidr(mask).unwrap();
        assert_eq!(back, prefix);
        assert_eq!(cidr_to_mask(back).unwrap(), mask);
    }
}
