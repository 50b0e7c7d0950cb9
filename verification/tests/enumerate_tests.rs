use ip_calculator::enumerate::{generate_subnets, get_subnet};
use ip_calculator::errors::IpCalculatorError;

fn ip(a: u32, b: u32, c: u32, d: u32) -> u32 {
    (a << 24) | (b << 16) | (c << 8) | d
}

#[test]
fn four_quarters_of_a_24() {
    let (subnets, total, pages) = generate_subnets("192.168.1.0/24", 26, None, None).unwrap();
    assert_eq!(total, 4);
    assert_eq!(pages, 1);
    assert_eq!(subnets.len(), 4);
    assert_eq!(subnets[0].network, ip(192, 168, 1, 0));
    assert_eq!(subnets[1].network, ip(192, 168, 1, 64));
    assert_eq!(subnets[2].network, ip(192, 168, 1, 128));
    assert_eq!(subnets[3].network, ip(192, 168, 1, 192));
    for s in &subnets {
        assert_eq!(s.prefix, 26);
        assert_eq!(s.num_hosts, 62);
    }
}

#[test]
fn slash8_into_slash16_children() {
    let (subnets, total, _pages) = generate_subnets("10.0.0.0/8", 16, None, None).unwrap();
    assert_eq!(total, 256);
    assert_eq!(subnets.len(), 256);
    for (i, s) in subnets.iter().enumerate() {
        assert_eq!(s.network, ip(10, i as u32, 0, 0));
        assert_eq!(s.prefix, 16);
    }
    // pairwise non-overlapping
    for i in 0..subnets.len() {
        for j in 0..subnets.len() {
            if i != j {
                assert!(!subnets[i].overlaps_with(&subnets[j]));
            }
        }
    }
}

#[test]
fn new_prefix_not_larger_is_rejected() {
    assert!(matches!(
        generate_subnets("192.168.1.0/24", 24, None, None),
        Err(IpCalculatorError::InvalidPrefix)
    ));
    assert!(matches!(
        generate_subnets("192.168.1.0/24", 20, None, None),
        Err(IpCalculatorError::InvalidPrefix)
    ));
    assert!(matches!(
        generate_subnets("10.0.0.0/8", 8, None, None),
        Err(IpCalculatorError::InvalidPrefix)
    ));
    assert!(matches!(
        generate_subnets("0.0.0.0/0", 0, None, None),
        Err(IpCalculatorError::InvalidPrefix)
    ));
}

#[test]
fn new_prefix_above_32_is_rejected() {
    assert!(matches!(
        generate_subnets("192.168.1.0/24", 33, None, None),
        Err(IpCalculatorError::InvalidPrefix)
    ));
}

#[test]
fn full_split_of_whole_space_overflows_child_count() {
    assert!(matches!(
        generate_subnets("0.0.0.0/0", 32, None, None),
        Err(IpCalculatorError::SubnetError)
    ));
}

#[test]
fn malformed_cidr_errors_pass_through() {
    assert!(matches!(
        generate_subnets("192.168.1.0", 26, None, None),
        Err(IpCalculatorError::InvalidCIDR)
    ));
    assert!(matches!(
        generate_subnets("300.0.0.0/8", 16, None, None),
        Err(IpCalculatorError::InvalidIP)
    ));
}

#[test]
fn filter_caps_the_result_set() {
    let (subnets, total, pages) = generate_subnets("10.0.0.0/8", 16, Some(5), None).unwrap();
    assert_eq!(total, 256);
    assert_eq!(pages, 1);
    assert_eq!(subnets.len(), 5);
    assert_eq!(subnets[4].network, ip(10, 4, 0, 0));
}

#[test]
fn paging_steps_through_the_children() {
    // /8 into /24: 65536 children, 128 pages of 512
    let (page0, total, pages) = generate_subnets("10.0.0.0/8", 24, None, None).unwrap();
    assert_eq!(total, 65536);
    assert_eq!(pages, 128);
    assert_eq!(page0.len(), 512);
    assert_eq!(page0[0].network, ip(10, 0, 0, 0));
    assert_eq!(page0[511].network, ip(10, 1, 255, 0));

    let (page1, _, _) = generate_subnets("10.0.0.0/8", 24, None, Some(1)).unwrap();
    assert_eq!(page1.len(), 512);
    assert_eq!(page1[0].network, ip(10, 2, 0, 0));
}

#[test]
fn page_past_the_end_clamps_to_last_page() {
    let (page, _, pages) = generate_subnets("10.0.0.0/8", 24, None, Some(1000)).unwrap();
    assert_eq!(pages, 128);
    assert_eq!(page.len(), 512);
    // last page starts at child 127 * 512 = 65024
    assert_eq!(page[0].network, ip(10, 254, 0, 0));
    assert_eq!(page[511].network, ip(10, 255, 255, 0));
}

#[test]
fn filter_beyond_child_count_is_capped() {
    // the logical result set is at most the child count, so one page holds
    // everything
    let (subnets, total, pages) = generate_subnets("192.168.1.0/24", 26, Some(5000), None).unwrap();
    assert_eq!(total, 4);
    assert_eq!(pages, 1);
    assert_eq!(subnets.len(), 4);
    // a page request is clamped against the capped page count
    let (subnets, _, pages) = generate_subnets("192.168.1.0/24", 26, Some(5000), Some(9)).unwrap();
    assert_eq!(pages, 1);
    assert_eq!(subnets.len(), 4);
    assert_eq!(subnets[0].network, ip(192, 168, 1, 0));
}

#[test]
fn zero_filter_yields_no_subnets() {
    let (subnets, total, pages) = generate_subnets("192.168.1.0/24", 26, Some(0), None).unwrap();
    assert_eq!(total, 4);
    assert_eq!(pages, 0);
    assert_eq!(subnets.len(), 0);
}

#[test]
fn get_subnet_by_index() {
    let (s, total) = get_subnet("192.168.1.0/24", 26, 2).unwrap();
    assert_eq!(total, 4);
    assert_eq!(s.network, ip(192, 168, 1, 128));
    assert_eq!(s.prefix, 26);
}

#[test]
fn get_subnet_index_past_the_end_clamps() {
    let (s, total) = get_subnet("192.168.1.0/24", 26, 7).unwrap();
    assert_eq!(total, 4);
    assert_eq!(s.network, ip(192, 168, 1, 192));
}

#[test]
fn get_subnet_malformed_cidr_is_invalid_cidr() {
    assert!(matches!(
        get_subnet("not-a-cidr", 26, 0),
        Err(IpCalculatorError::InvalidCIDR)
    ));
    // even an address error surfaces as the CIDR kind here
    assert!(matches!(
        get_subnet("300.0.0.0/8", 16, 0),
        Err(IpCalculatorError::InvalidCIDR)
    ));
}

#[test]
fn get_subnet_prefix_checks() {
    assert!(matches!(
        get_subnet("192.168.1.0/24", 24, 0),
        Err(IpCalculatorError::InvalidPrefix)
    ));
    assert!(matches!(
        get_subnet("192.168.1.0/24", 33, 0),
        Err(IpCalculatorError::InvalidPrefix)
    ));
    assert!(matches!(
        get_subnet("0.0.0.0/0", 32, 0),
        Err(IpCalculatorError::SubnetError)
    ));
}
