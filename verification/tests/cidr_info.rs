use cidr_calc::addr::Ipv4Addr;
use cidr_calc::cidr_info::CidrInfo;
use cidr_calc::error::Error;

#[test]
fn basic_cidr_0() {
    // Arrange
    let expected_addr_info = CidrInfo {
        ip: Ipv4Addr::new(0, 0, 0, 0),
        cidr: 0,
        subnet_mask: Ipv4Addr::new(0, 0, 0, 0),
        wildcard_mask: Ipv4Addr::new(255, 255, 255, 255),
        first_host_addr: Ipv4Addr::new(0, 0, 0, 1),
        last_host_addr: Ipv4Addr::new(255, 255, 255, 254),
        usable_hosts: 4_294_967_294,
        network_addr: Ipv4Addr::new(0, 0, 0, 0),
        broadcast_addr: Ipv4Addr::new(255, 255, 255, 255),
        total_hosts: 4_294_967_296,
    };

    // Act
    let result_addr_info = CidrInfo::new(Ipv4Addr::from_str("0.0.0.0").unwrap(), 0).unwrap();

    // Assert
    assert_eq!(result_addr_info, expected_addr_info);
}

#[test]
fn basic_cidr_1() {
    // Arrange
    let expected_addr_info = CidrInfo {
        ip: Ipv4Addr::new(0, 0, 0, 0),
        cidr: 1,
        subnet_mask: Ipv4Addr::new(128, 0, 0, 0),
        wildcard_mask: Ipv4Addr::new(127, 255, 255, 255),
        first_host_addr: Ipv4Addr::new(0, 0, 0, 1),
        last_host_addr: Ipv4Addr::new(127, 255, 255, 254),
        usable_hosts: 2_147_483_646,
        network_addr: Ipv4Addr::new(0, 0, 0, 0),
        broadcast_addr: Ipv4Addr::new(127, 255, 255, 255),
        total_hosts: 2_147_483_648,
    };

    // Act
    let result_addr_info = CidrInfo::new(Ipv4Addr::from_str("0.0.0.0").unwrap(), 1).unwrap();

    // Assert
    assert_eq!(result_addr_info, expected_addr_info);
}

#[test]
fn basic_cidr_11() {
    // Arrange
    let expected_addr_info = CidrInfo {
        ip: Ipv4Addr::new(255, 255, 255, 253),
        cidr: 11,
        subnet_mask: Ipv4Addr::new(255, 224, 0, 0),
        wildcard_mask: Ipv4Addr::new(0, 31, 255, 255),
        first_host_addr: Ipv4Addr::new(255, 224, 0, 1),
        last_host_addr: Ipv4Addr::new(255, 255, 255, 254),
        usable_hosts: 2_097_150,
        network_addr: Ipv4Addr::new(255, 224, 0, 0),
        broadcast_addr: Ipv4Addr::new(255, 255, 255, 255),
        total_hosts: 2_097_152,
    };

    // Act
    let result_addr_info =
        CidrInfo::new(Ipv4Addr::from_str("255.255.255.253").unwrap(), 11).unwrap();

    // Assert
    assert_eq!(result_addr_info, expected_addr_info);
}

#[test]
fn basic_cidr_13() {
    // Arrange
    let expected_addr_info = CidrInfo {
        ip: Ipv4Addr::new(10, 8, 17, 0),
        cidr: 13,
        subnet_mask: Ipv4Addr::new(255, 248, 0, 0),
        wildcard_mask: Ipv4Addr::new(0, 7, 255, 255),
        first_host_addr: Ipv4Addr::new(10, 8, 0, 1),
        last_host_addr: Ipv4Addr::new(10, 15, 255, 254),
        usable_hosts: 524_286,
        network_addr: Ipv4Addr::new(10, 8, 0, 0),
        broadcast_addr: Ipv4Addr::new(10, 15, 255, 255),
        total_hosts: 524_288,
    };

    // Act
    let result_addr_info = CidrInfo::new(Ipv4Addr::from_str("10.8.17.0").unwrap(), 13).unwrap();

    // Assert
    assert_eq!(result_addr_info, expected_addr_info);
}

#[test]
fn basic_cidr_24() {
    // Arrange
    let expected_addr_info = CidrInfo {
        ip: Ipv4Addr::new(10, 0, 0, 1),
        cidr: 24,
        subnet_mask: Ipv4Addr::new(255, 255, 255, 0),
        wildcard_mask: Ipv4Addr::new(0, 0, 0, 255),
        first_host_addr: Ipv4Addr::new(10, 0, 0, 1),
        last_host_addr: Ipv4Addr::new(10, 0, 0, 254),
        network_addr: Ipv4Addr::new(10, 0, 0, 0),
        broadcast_addr: Ipv4Addr::new(10, 0, 0, 255),
        usable_hosts: 254,
        total_hosts: 256,
    };

    // Act
    let result_addr_info = CidrInfo::new(Ipv4Addr::from_str("10.0.0.1").unwrap(), 24).unwrap();

    // Assert
    assert_eq!(result_addr_info, expected_addr_info);
}

#[test]
fn basic_cidr_31() {
    // Arrange
    let expected_addr_info = CidrInfo {
        ip: Ipv4Addr::new(10, 0, 0, 1),
        cidr: 31,
        subnet_mask: Ipv4Addr::new(255, 255, 255, 254),
        wildcard_mask: Ipv4Addr::new(0, 0, 0, 1),
        first_host_addr: Ipv4Addr::new(10, 0, 0, 0),
        last_host_addr: Ipv4Addr::new(10, 0, 0, 1),
        network_addr: Ipv4Addr::new(10, 0, 0, 0),
        broadcast_addr: Ipv4Addr::new(10, 0, 0, 1),
        usable_hosts: 0,
        total_hosts: 2,
    };

    // Act
    let result_addr_info = CidrInfo::new(Ipv4Addr::from_str("10.0.0.1").unwrap(), 31).unwrap();

    // Assert
    assert_eq!(result_addr_info, expected_addr_info);
}

#[test]
fn basic_cidr_32() {
    let ip = Ipv4Addr::new(192, 168, 7, 9);
    let expected = CidrInfo {
        ip,
        cidr: 32,
        subnet_mask: Ipv4Addr::new(255, 255, 255, 255),
        wildcard_mask: Ipv4Addr::new(0, 0, 0, 0),
        first_host_addr: ip,
        last_host_addr: ip,
        usable_hosts: 0,
        network_addr: ip,
        broadcast_addr: ip,
        total_hosts: 1,
    };
    assert_eq!(CidrInfo::new(ip, 32).unwrap(), expected);
}

#[test]
fn basic_cidr_30() {
    let expected = CidrInfo {
        ip: Ipv4Addr::new(172, 16, 5, 255),
        cidr: 30,
        subnet_mask: Ipv4Addr::new(255, 255, 255, 252),
        wildcard_mask: Ipv4Addr::new(0, 0, 0, 3),
        first_host_addr: Ipv4Addr::new(172, 16, 5, 253),
        last_host_addr: Ipv4Addr::new(172, 16, 5, 254),
        usable_hosts: 2,
        network_addr: Ipv4Addr::new(172, 16, 5, 252),
        broadcast_addr: Ipv4Addr::new(172, 16, 5, 255),
        total_hosts: 4,
    };
    assert_eq!(CidrInfo::new(Ipv4Addr::new(172, 16, 5, 255), 30).unwrap(), expected);
}

#[test]
fn from_str_whole_address_space() {
    let info = CidrInfo::from_str("0.0.0.0/0").unwrap();
    assert_eq!(info.subnet_mask, Ipv4Addr::new(0, 0, 0, 0));
    assert_eq!(info.wildcard_mask, Ipv4Addr::new(255, 255, 255, 255));
    assert_eq!(info.network_addr, Ipv4Addr::new(0, 0, 0, 0));
    assert_eq!(info.broadcast_addr, Ipv4Addr::new(255, 255, 255, 255));
    assert_eq!(info.first_host_addr, Ipv4Addr::new(0, 0, 0, 1));
    assert_eq!(info.last_host_addr, Ipv4Addr::new(255, 255, 255, 254));
    assert_eq!(info.usable_hosts, 4294967294);
    assert_eq!(info.total_hosts, 4294967296);
}

#[test]
fn from_str_prefix_24() {
    let info = CidrInfo::from_str("10.0.0.1/24").unwrap();
    assert_eq!(info.ip, Ipv4Addr::new(10, 0, 0, 1));
    assert_eq!(info.cidr, 24);
    assert_eq!(info.network_addr, Ipv4Addr::new(10, 0, 0, 0));
    assert_eq!(info.broadcast_addr, Ipv4Addr::new(10, 0, 0, 255));
    assert_eq!(info.first_host_addr, Ipv4Addr::new(10, 0, 0, 1));
    assert_eq!(info.last_host_addr, Ipv4Addr::new(10, 0, 0, 254));
    assert_eq!(info.usable_hosts, 254);
    assert_eq!(info.total_hosts, 256);
}

#[test]
fn from_str_point_to_point() {
    let info = CidrInfo::from_str("10.0.0.1/31").unwrap();
    assert_eq!(info.network_addr, Ipv4Addr::new(10, 0, 0, 0));
    assert_eq!(info.broadcast_addr, Ipv4Addr::new(10, 0, 0, 1));
    assert_eq!(info.first_host_addr, Ipv4Addr::new(10, 0, 0, 0));
    assert_eq!(info.last_host_addr, Ipv4Addr::new(10, 0, 0, 1));
    assert_eq!(info.usable_hosts, 0);
    assert_eq!(info.total_hosts, 2);
}

#[test]
fn from_str_prefix_11() {
    let info = CidrInfo::from_str("255.255.255.253/11").unwrap();
    assert_eq!(info.subnet_mask, Ipv4Addr::new(255, 224, 0, 0));
    assert_eq!(info.network_addr, Ipv4Addr::new(255, 224, 0, 0));
    assert_eq!(info.broadcast_addr, Ipv4Addr::new(255, 255, 255, 255));
    assert_eq!(info.usable_hosts, 2097150);
    assert_eq!(info.total_hosts, 2097152);
}

#[test]
fn from_str_dashed_gives_the_same_description() {
    assert_eq!(CidrInfo::from_str("10-8-17-0-13"), CidrInfo::from_str("10.8.17.0/13"));
    assert_eq!(
        CidrInfo::from_str("10-8-17-0-13"),
        CidrInfo::new(Ipv4Addr::new(10, 8, 17, 0), 13)
    );
}

#[test]
fn from_str_hands_on_each_error() {
    assert_eq!(
        CidrInfo::from_str("0.0.0.0/33"),
        Err(Error::CidrOutOfRange("33".to_string()))
    );
    assert_eq!(
        CidrInfo::from_str("0.0.0.0/256"),
        Err(Error::CidrOutOfRange("256".to_string()))
    );
    assert_eq!(CidrInfo::from_str("256.256.256.256/1"), Err(Error::InvalidIp));
    assert_eq!(CidrInfo::from_str("0-0-0-0/33"), Err(Error::Format));
    assert_eq!(CidrInfo::from_str("0.0.0.0/x"), Err(Error::InvalidCidr));
}

#[test]
fn summary_of_a_subnet() {
    let info = CidrInfo::new(Ipv4Addr::new(10, 0, 0, 1), 24).unwrap();
    let expected = "Network Summary
ip...............: 10.0.0.1
cidr.............: 24
subnet_mask......: 255.255.255.0
wildcard_mask....: 0.0.0.255
first_host_addr..: 10.0.0.1
last_host_addr...: 10.0.0.254\x20
usable_hosts.....: 254
network_addr.....: 10.0.0.0
broadcast_addr...: 10.0.0.255
total_hosts......: 256";
    assert_eq!(info.to_string(), expected);
}

#[test]
fn summary_of_the_whole_address_space() {
    let info = CidrInfo::new(Ipv4Addr::new(0, 0, 0, 0), 0).unwrap();
    let expected = "Network Summary
ip...............: 0.0.0.0
cidr.............: 0
subnet_mask......: 0.0.0.0
wildcard_mask....: 255.255.255.255
first_host_addr..: 0.0.0.1
last_host_addr...: 255.255.255.254\x20
usable_hosts.....: 4294967294
network_addr.....: 0.0.0.0
broadcast_addr...: 255.255.255.255
total_hosts......: 4294967296";
    assert_eq!(info.to_string(), expected);
}
