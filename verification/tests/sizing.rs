use vlsm::sizing::{block_size_for, MAX_BLOCK_SIZE};
use vlsm::AllocationError;
use vlsm::Subnet;

#[test]
fn zero_hosts_take_the_two_reserved_addresses() {
    assert_eq!(block_size_for(0), Ok(2));
}

#[test]
fn sizes_round_hosts_plus_two_up_to_a_power_of_two() {
    assert_eq!(block_size_for(1), Ok(4));
    assert_eq!(block_size_for(2), Ok(4));
    assert_eq!(block_size_for(3), Ok(8));
    assert_eq!(block_size_for(6), Ok(8));
    assert_eq!(block_size_for(7), Ok(16));
    assert_eq!(block_size_for(12), Ok(16));
    assert_eq!(block_size_for(14), Ok(16));
    assert_eq!(block_size_for(15), Ok(32));
    assert_eq!(block_size_for(34), Ok(64));
    assert_eq!(block_size_for(56), Ok(64));
    assert_eq!(block_size_for(62), Ok(64));
    assert_eq!(block_size_for(63), Ok(128));
    assert_eq!(block_size_for(254), Ok(256));
    assert_eq!(block_size_for(255), Ok(512));
    assert_eq!(block_size_for(65_534), Ok(65_536));
}

#[test]
fn every_size_is_the_least_power_of_two_with_room() {
    let mut hosts: u32 = 0;
    while hosts <= 70_000 {
        let size = block_size_for(hosts).unwrap();
        assert!(size.is_power_of_two(), "hosts {hosts}: size {size}");
        assert!(u64::from(size) >= u64::from(hosts) + 2, "hosts {hosts}: size {size}");
        assert!(u64::from(size / 2) < u64::from(hosts) + 2, "hosts {hosts}: size {size}");
        hosts += 1;
    }
}

#[test]
fn sizes_near_powers_of_two_up_to_the_largest_block() {
    let mut bits: u32 = 2;
    while bits <= 31 {
        let power: u32 = 1 << bits;
        assert_eq!(block_size_for(power - 2), Ok(power));
        assert_eq!(block_size_for(power - 3), Ok(power));
        if bits < 31 {
            assert_eq!(block_size_for(power - 1), Ok(power * 2));
        }
        bits += 1;
    }
}

#[test]
fn the_largest_block_is_half_the_address_space() {
    assert_eq!(MAX_BLOCK_SIZE, 0x8000_0000);
    assert_eq!(block_size_for(0x7FFF_FFFE), Ok(0x8000_0000));
}

#[test]
fn hosts_beyond_the_largest_block_are_out_of_range() {
    assert_eq!(block_size_for(0x7FFF_FFFF), Err(AllocationError::OutOfRange));
    assert_eq!(block_size_for(0x8000_0000), Err(AllocationError::OutOfRange));
    assert_eq!(block_size_for(u32::MAX - 1), Err(AllocationError::OutOfRange));
    assert_eq!(block_size_for(u32::MAX), Err(AllocationError::OutOfRange));
}

#[test]
fn a_subnet_keeps_its_name_and_gets_its_size() {
    let subnet = Subnet::new("A", 12).unwrap();
    assert_eq!(subnet.name(), "A");
    assert_eq!(subnet.size(), 16);
    let again = subnet.clone();
    assert_eq!(again, subnet);
    assert_eq!(again.name(), "A");
    assert_eq!(again.size(), 16);
}

#[test]
fn a_subnet_of_too_many_hosts_is_out_of_range() {
    assert_eq!(Subnet::new("A", u32::MAX), Err(AllocationError::OutOfRange));
    assert_eq!(Subnet::new("A", 0x7FFF_FFFF), Err(AllocationError::OutOfRange));
    assert_eq!(Subnet::new("A", 0x7FFF_FFFE).unwrap().size(), 0x8000_0000);
}

#[test]
fn a_subnet_from_a_request_is_the_subnet_of_its_name_and_hosts() {
    let request = vlsm::SubnetRequest { name: "office".to_string(), min_usable_hosts: 100 };
    let subnet = Subnet::from_request(&request).unwrap();
    assert_eq!(subnet.name(), "office");
    assert_eq!(subnet.size(), 128);
    assert_eq!(subnet, Subnet::new("office", 100).unwrap());
}
