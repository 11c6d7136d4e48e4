use vlsm::ParentNetwork;

#[test]
fn a_network_clears_the_host_bits_of_its_address() {
    let network = ParentNetwork::new(0x0C22_384E, 24);
    assert_eq!(network.base_address(), 0x0C22_3800);
    assert_eq!(network.prefix_length(), 24);
    assert_eq!(network.available_addresses(), 256);
    assert_eq!(network.broadcast_address(), 0x0C22_38FF);
}

#[test]
fn a_network_of_an_aligned_address_starts_there() {
    let network = ParentNetwork::new(0x0C22_3800, 24);
    assert_eq!(network.base_address(), 0x0C22_3800);
    assert_eq!(network.broadcast_address(), 0x0C22_38FF);
    assert_eq!(network, ParentNetwork::new(0x0C22_384E, 24));
}

#[test]
fn a_network_of_nine_prefix_bits() {
    let network = ParentNetwork::new(0x0C22_384E, 9);
    assert_eq!(network.base_address(), 0x0C00_0000);
    assert_eq!(network.broadcast_address(), 0x0C7F_FFFF);
    assert_eq!(network.available_addresses(), 1 << 23);
}

#[test]
fn the_network_of_no_prefix_bits_is_the_address_space() {
    let network = ParentNetwork::new(0xDEAD_BEEF, 0);
    assert_eq!(network.base_address(), 0);
    assert_eq!(network.broadcast_address(), u32::MAX);
    assert_eq!(network.available_addresses(), 0x1_0000_0000);
    assert_eq!(network.prefix_length(), 0);
}

#[test]
fn the_network_of_all_prefix_bits_is_one_address() {
    let network = ParentNetwork::new(0xDEAD_BEEF, 32);
    assert_eq!(network.base_address(), 0xDEAD_BEEF);
    assert_eq!(network.broadcast_address(), 0xDEAD_BEEF);
    assert_eq!(network.available_addresses(), 1);
}

#[test]
fn networks_at_the_top_of_the_address_space() {
    let network = ParentNetwork::new(u32::MAX, 30);
    assert_eq!(network.base_address(), 0xFFFF_FFFC);
    assert_eq!(network.broadcast_address(), u32::MAX);
    assert_eq!(network.available_addresses(), 4);
    let half = ParentNetwork::new(u32::MAX, 1);
    assert_eq!(half.base_address(), 0x8000_0000);
    assert_eq!(half.broadcast_address(), u32::MAX);
    assert_eq!(half.available_addresses(), 0x8000_0000);
}

#[test]
fn every_prefix_length_gives_an_aligned_network_around_the_address() {
    let address: u32 = 0xA5C3_7E19;
    for prefix_length in 0..=32u8 {
        let network = ParentNetwork::new(address, prefix_length);
        let available = network.available_addresses();
        assert_eq!(available, 1u64 << (32 - u32::from(prefix_length)));
        assert_eq!(u64::from(network.base_address()) % available, 0);
        assert!(network.base_address() <= address);
        assert!(address <= network.broadcast_address());
        assert_eq!(
            u64::from(network.broadcast_address()),
            u64::from(network.base_address()) + available - 1
        );
    }
}
