use cidr_calc::addr::Ipv4Addr;
use cidr_calc::helpers::{
    get_broadcast_addr, get_first_host_addr, get_host_values, get_last_host_addr,
    get_network_addr, get_subnet_mask, get_wildcard_mask,
};

#[test]
fn test_get_subnet_mask_0() {
    assert_eq!(get_subnet_mask(0), Ipv4Addr::new(0, 0, 0, 0));
}

#[test]
fn test_get_subnet_mask_8() {
    assert_eq!(get_subnet_mask(8), Ipv4Addr::new(255, 0, 0, 0));
}

#[test]
fn test_get_subnet_mask_16() {
    assert_eq!(get_subnet_mask(16), Ipv4Addr::new(255, 255, 0, 0));
}

#[test]
fn test_get_subnet_mask_24() {
    assert_eq!(get_subnet_mask(24), Ipv4Addr::new(255, 255, 255, 0));
}

#[test]
fn test_get_subnet_mask_25() {
    assert_eq!(get_subnet_mask(25), Ipv4Addr::new(255, 255, 255, 128));
}

#[test]
fn test_get_subnet_mask_32() {
    assert_eq!(get_subnet_mask(32), Ipv4Addr::new(255, 255, 255, 255));
}

#[test]
fn test_get_subnet_mask_1_and_31() {
    assert_eq!(get_subnet_mask(1), Ipv4Addr::new(128, 0, 0, 0));
    assert_eq!(get_subnet_mask(11), Ipv4Addr::new(255, 224, 0, 0));
    assert_eq!(get_subnet_mask(31), Ipv4Addr::new(255, 255, 255, 254));
}

#[test]
fn test_get_wildcard_mask_0() {
    assert_eq!(
        get_wildcard_mask(Ipv4Addr::new(0, 0, 0, 0)),
        Ipv4Addr::new(255, 255, 255, 255)
    );
}

#[test]
fn test_get_wildcard_mask_8() {
    assert_eq!(
        get_wildcard_mask(Ipv4Addr::new(255, 0, 0, 0)),
        Ipv4Addr::new(0, 255, 255, 255)
    );
}

#[test]
fn test_get_wildcard_mask_16() {
    assert_eq!(
        get_wildcard_mask(Ipv4Addr::new(255, 255, 0, 0)),
        Ipv4Addr::new(0, 0, 255, 255)
    );
}

#[test]
fn test_get_wildcard_mask_24() {
    assert_eq!(
        get_wildcard_mask(Ipv4Addr::new(255, 255, 255, 0)),
        Ipv4Addr::new(0, 0, 0, 255)
    );
}

#[test]
fn test_get_wildcard_mask_25() {
    assert_eq!(
        get_wildcard_mask(Ipv4Addr::new(255, 255, 255, 128)),
        Ipv4Addr::new(0, 0, 0, 127)
    );
}

#[test]
fn test_get_wildcard_mask_32() {
    assert_eq!(
        get_wildcard_mask(Ipv4Addr::new(255, 255, 255, 255)),
        Ipv4Addr::new(0, 0, 0, 0)
    );
}

#[test]
fn test_get_network_addr_mask_0() {
    assert_eq!(
        get_network_addr(Ipv4Addr::new(0, 0, 0, 0), Ipv4Addr::new(1, 2, 3, 4)),
        Ipv4Addr::new(0, 0, 0, 0)
    );
}

#[test]
fn test_get_network_addr_mask_24() {
    assert_eq!(
        get_network_addr(Ipv4Addr::new(255, 255, 255, 0), Ipv4Addr::new(1, 2, 3, 4)),
        Ipv4Addr::new(1, 2, 3, 0)
    );
}

#[test]
fn test_get_network_addr_mask_24_again() {
    assert_eq!(
        get_network_addr(Ipv4Addr::new(255, 255, 255, 0), Ipv4Addr::new(1, 2, 3, 4)),
        Ipv4Addr::new(1, 2, 3, 0)
    );
}

#[test]
fn test_get_network_addr_mask_16() {
    assert_eq!(
        get_network_addr(Ipv4Addr::new(255, 255, 0, 0), Ipv4Addr::new(1, 2, 3, 4)),
        Ipv4Addr::new(1, 2, 0, 0)
    );
}

#[test]
fn test_get_first_host_addr_from_4() {
    assert_eq!(
        get_first_host_addr(Ipv4Addr::new(1, 2, 3, 4), 1),
        Ipv4Addr::new(1, 2, 3, 5),
    );
}

#[test]
fn test_get_first_host_addr_from_0() {
    assert_eq!(
        get_first_host_addr(Ipv4Addr::new(1, 2, 3, 0), 1),
        Ipv4Addr::new(1, 2, 3, 1),
    );
}

#[test]
fn test_get_first_host_addr_from_zero_address() {
    assert_eq!(
        get_first_host_addr(Ipv4Addr::new(0, 0, 0, 0), 1),
        Ipv4Addr::new(0, 0, 0, 1),
    );
}

#[test]
fn test_get_first_host_addr_no_usable_hosts() {
    assert_eq!(
        get_first_host_addr(Ipv4Addr::new(10, 0, 0, 1), 0),
        Ipv4Addr::new(10, 0, 0, 1),
    );
}

#[test]
fn test_get_first_host_addr_no_usable_hosts_last_octet_full() {
    assert_eq!(
        get_first_host_addr(Ipv4Addr::new(10, 0, 0, 255), 0),
        Ipv4Addr::new(10, 0, 0, 255),
    );
}

#[test]
fn test_get_broadcast_addr_wildcard_127() {
    assert_eq!(
        get_broadcast_addr(Ipv4Addr::new(0, 0, 0, 127), Ipv4Addr::new(1, 2, 3, 4)),
        Ipv4Addr::new(1, 2, 3, 127)
    );
}

#[test]
fn test_get_broadcast_addr_wildcard_8() {
    assert_eq!(
        get_broadcast_addr(Ipv4Addr::new(0, 255, 255, 255), Ipv4Addr::new(1, 2, 3, 4)),
        Ipv4Addr::new(1, 255, 255, 255)
    );
}

#[test]
fn test_get_broadcast_addr_wildcard_1() {
    assert_eq!(
        get_broadcast_addr(Ipv4Addr::new(0, 0, 0, 1), Ipv4Addr::new(1, 2, 3, 4)),
        Ipv4Addr::new(1, 2, 3, 5)
    );
}

#[test]
fn test_get_last_host_addr_from_255() {
    assert_eq!(
        get_last_host_addr(Ipv4Addr::new(1, 2, 3, 255), 1),
        Ipv4Addr::new(1, 2, 3, 254)
    );
}

#[test]
fn test_get_last_host_addr_from_127() {
    assert_eq!(
        get_last_host_addr(Ipv4Addr::new(1, 2, 3, 127), 1),
        Ipv4Addr::new(1, 2, 3, 126)
    );
}

#[test]
fn test_get_last_host_addr_from_wide_broadcast() {
    assert_eq!(
        get_last_host_addr(Ipv4Addr::new(1, 255, 255, 255), 1),
        Ipv4Addr::new(1, 255, 255, 254)
    );
}

#[test]
fn test_get_last_host_addr_no_usable_hosts() {
    assert_eq!(
        get_last_host_addr(Ipv4Addr::new(10, 0, 0, 0), 0),
        Ipv4Addr::new(10, 0, 0, 0)
    );
}

#[test]
fn test_get_host_values_1() {
    assert_eq!(get_host_values(1), (2_147_483_648, 2_147_483_646));
}

#[test]
fn test_get_host_values_24() {
    assert_eq!(get_host_values(24), (256, 254));
}

#[test]
fn test_get_host_values_32() {
    assert_eq!(get_host_values(32), (1, 0));
}

#[test]
fn test_get_host_values_edges() {
    assert_eq!(get_host_values(0), (4_294_967_296, 4_294_967_294));
    assert_eq!(get_host_values(30), (4, 2));
    assert_eq!(get_host_values(31), (2, 0));
}

#[test]
fn address_octets_and_bits() {
    let addr = Ipv4Addr::new(192, 168, 1, 2);
    assert_eq!(addr.octets(), [192, 168, 1, 2]);
    assert_eq!(addr.to_bits(), 0xc0a8_0102);
    assert_eq!(Ipv4Addr::from_bits(0xc0a8_0102), addr);
    assert_eq!(Ipv4Addr::from_bits(0xffff_fffe).octets(), [255, 255, 255, 254]);
}
