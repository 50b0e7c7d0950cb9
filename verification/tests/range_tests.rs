use ip_calculator::errors::IpCalculatorError;
use ip_calculator::range::find_ip_range;

fn ip(a: u32, b: u32, c: u32, d: u32) -> u32 {
    (a << 24) | (b << 16) | (c << 8) | d
}

#[test]
fn first_run_without_exclusions() {
    let (start, end) = find_ip_range("192.168.1.0/24", 3, vec![]).unwrap();
    assert_eq!(start, ip(192, 168, 1, 1));
    assert_eq!(end, ip(192, 168, 1, 3));
}

#[test]
fn exclusion_breaks_the_first_candidate_run() {
    // .2 is excluded, so the run cannot start at .1; the next candidate run
    // starts right after the exclusion
    let (start, end) = find_ip_range("192.168.1.0/24", 3, vec![ip(192, 168, 1, 2)]).unwrap();
    assert!(start > ip(192, 168, 1, 2));
    assert_eq!(start, ip(192, 168, 1, 3));
    assert_eq!(end, ip(192, 168, 1, 5));
}

#[test]
fn several_exclusions_push_the_run_further() {
    let exclusions = vec![
        ip(192, 168, 1, 2),
        ip(192, 168, 1, 4),
        ip(192, 168, 1, 6),
    ];
    let (start, end) = find_ip_range("192.168.1.0/24", 3, exclusions).unwrap();
    assert_eq!(start, ip(192, 168, 1, 7));
    assert_eq!(end, ip(192, 168, 1, 9));
}

#[test]
fn single_address_request_takes_first_free() {
    let (start, end) = find_ip_range("192.168.1.0/24", 1, vec![ip(192, 168, 1, 1)]).unwrap();
    assert_eq!(start, ip(192, 168, 1, 2));
    assert_eq!(end, ip(192, 168, 1, 2));
}

#[test]
fn zero_range_size_is_rejected() {
    assert!(matches!(
        find_ip_range("192.168.1.0/24", 0, vec![]),
        Err(IpCalculatorError::InvalidRange)
    ));
}

#[test]
fn point_to_point_subnet_has_no_usable_range() {
    assert!(matches!(
        find_ip_range("10.0.0.0/31", 1, vec![]),
        Err(IpCalculatorError::SubnetError)
    ));
    assert!(matches!(
        find_ip_range("10.0.0.0/32", 1, vec![]),
        Err(IpCalculatorError::SubnetError)
    ));
}

#[test]
fn all_hosts_excluded_is_range_error() {
    // a /30 has usable hosts .1 and .2
    let exclusions = vec![ip(192, 168, 0, 1), ip(192, 168, 0, 2)];
    assert!(matches!(
        find_ip_range("192.168.0.0/30", 1, exclusions),
        Err(IpCalculatorError::RangeError)
    ));
}

#[test]
fn no_long_enough_run_is_invalid_range() {
    // only two usable hosts in a /30
    assert!(matches!(
        find_ip_range("192.168.0.0/30", 3, vec![]),
        Err(IpCalculatorError::InvalidRange)
    ));
    // one host free after exclusion, two requested
    assert!(matches!(
        find_ip_range("192.168.0.0/30", 2, vec![ip(192, 168, 0, 1)]),
        Err(IpCalculatorError::InvalidRange)
    ));
}

#[test]
fn malformed_inputs_error_kinds() {
    assert!(matches!(
        find_ip_range("192.168.1.0", 3, vec![]),
        Err(IpCalculatorError::InvalidCIDR)
    ));
    assert!(matches!(
        find_ip_range("999.168.1.0/24", 3, vec![]),
        Err(IpCalculatorError::InvalidIP)
    ));
    assert!(matches!(
        find_ip_range("192.168.1.0/40", 3, vec![]),
        Err(IpCalculatorError::InvalidPrefix)
    ));
}
