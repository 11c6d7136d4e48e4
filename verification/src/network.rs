//! The parent network: the block of addresses that is to be partitioned.

use vstd::prelude::*;
use vstd::arithmetic::div_mod::*;
use vstd::arithmetic::power2::*;
use vstd::bits::*;

verus! {

/// The size of the whole IPv4 address space.
pub const ADDRESS_SPACE: u64 = 0x1_0000_0000;

/// The number of addresses in a network whose prefix has `prefix_length`
/// bits: two to the power of the bits that are left for hosts.
pub open spec fn addresses_in(prefix_length: nat) -> nat {
    pow2((32 - prefix_length) as nat)
}

/// The first address of the network of `prefix_length` prefix bits that
/// holds `address`: the address with its host bits cleared.
pub open spec fn network_base(address: nat, prefix_length: nat) -> nat {
    (address - address % addresses_in(prefix_length)) as nat
}

/// A network of the IPv4 address space, given by its first address and the
/// length of its prefix.
pub struct NetworkView {
    pub base_address: nat,
    pub prefix_length: nat,
}

impl NetworkView {
    /// The number of addresses in the network.
    pub open spec fn available_addresses(self) -> nat {
        addresses_in(self.prefix_length)
    }

    /// The last address of the network.
    pub open spec fn broadcast_address(self) -> int {
        self.base_address + self.available_addresses() - 1
    }

    /// A network starts at a multiple of its size and ends within the
    /// address space.
    pub open spec fn is_network(self) -> bool {
        &&& self.prefix_length <= 32
        &&& self.base_address % self.available_addresses() == 0
        &&& self.base_address + self.available_addresses() <= ADDRESS_SPACE
    }
}

/// The network that an address and a prefix length name is a network, and
/// it holds the address.
pub proof fn lemma_network_base_is_network(address: nat, prefix_length: nat)
    requires
        address < ADDRESS_SPACE,
        prefix_length <= 32,
    ensures
        (NetworkView { base_address: network_base(address, prefix_length), prefix_length })
            .is_network(),
        network_base(address, prefix_length) <= address < network_base(address, prefix_length)
            + addresses_in(prefix_length),
{
    let host_bits = (32 - prefix_length) as nat;
    let block = addresses_in(prefix_length) as int;
    let base = network_base(address, prefix_length) as int;
    lemma_pow2_pos(host_bits);
    lemma2_to64();
    lemma_pow2_adds(host_bits, prefix_length);
    let blocks = pow2(prefix_length) as int;
    assert(block * blocks == ADDRESS_SPACE);
    lemma_fundamental_div_mod(address as int, block);
    let index = address as int / block;
    assert(base == block * index);
    lemma_mod_multiples_basic(index, block);
    assert(base % block == 0) by {
        assert(block * index == index * block) by (nonlinear_arith);
    }
    assert(index < blocks) by (nonlinear_arith)
        requires
            block * index <= address,
            address < block * blocks,
            block > 0,
    ;
    assert(block * index + block <= block * blocks) by (nonlinear_arith)
        requires
            index < blocks,
            block > 0,
    ;
}

/// The network to partition. Its base address is always the address it was
/// made from with the host bits cleared.
#[derive(Clone, Copy, Debug, PartialEq, Eq)]
pub struct ParentNetwork {
    base_address: u32,
    prefix_length: u8,
}

impl View for ParentNetwork {
    type V = NetworkView;

    closed spec fn view(&self) -> NetworkView {
        NetworkView {
            base_address: self.base_address as nat,
            prefix_length: self.prefix_length as nat,
        }
    }
}

impl ParentNetwork {
    #[verifier::type_invariant]
    spec fn well_formed(self) -> bool {
        self@.is_network()
    }

    /// The network of `prefix_length` prefix bits that holds `address`.
    /// The address may have host bits set: they are cleared.
    pub fn new(address: u32, prefix_length: u8) -> (network: ParentNetwork)
        requires
            prefix_length <= 32,
        ensures
            network@ == (NetworkView {
                base_address: network_base(address as nat, prefix_length as nat),
                prefix_length: prefix_length as nat,
            }),
            network@.is_network(),
            network@.base_address <= address <= network@.broadcast_address(),
    {
        let host_bits: u64 = 32 - prefix_length as u64;
        proof {
            lemma2_to64();
            lemma_pow2_pos(host_bits as nat);
            if host_bits < 32 {
                lemma_pow2_strictly_increases(host_bits as nat, 32);
            }
            lemma_u64_shl_is_mul(1, host_bits);
            lemma_mod_decreases(address as nat, pow2(host_bits as nat));
            lemma_network_base_is_network(address as nat, prefix_length as nat);
        }
        let block: u64 = 1u64 << host_bits;
        let offset: u64 = address as u64 % block;
        ParentNetwork { base_address: (address as u64 - offset) as u32, prefix_length }
    }

    /// The first address of the network.
    pub fn base_address(&self) -> (address: u32)
        ensures
            address == self@.base_address,
            self@.is_network(),
    {
        proof {
            use_type_invariant(self);
        }
        self.base_address
    }

    /// The number of bits in the network's prefix.
    pub fn prefix_length(&self) -> (length: u8)
        ensures
            length == self@.prefix_length,
            self@.is_network(),
    {
        proof {
            use_type_invariant(self);
        }
        self.prefix_length
    }

    /// The number of addresses in the network.
    pub fn available_addresses(&self) -> (count: u64)
        ensures
            count == self@.available_addresses(),
            1 <= count <= ADDRESS_SPACE,
            self@.is_network(),
    {
        proof {
            use_type_invariant(self);
        }
        let host_bits: u64 = 32 - self.prefix_length as u64;
        proof {
            lemma2_to64();
            lemma_pow2_pos(host_bits as nat);
            if host_bits < 32 {
                lemma_pow2_strictly_increases(host_bits as nat, 32);
            }
            lemma_u64_shl_is_mul(1, host_bits);
        }
        1u64 << host_bits
    }

    /// The last address of the network.
    pub fn broadcast_address(&self) -> (address: u32)
        ensures
            address == self@.broadcast_address(),
            self@.is_network(),
    {
        let count = self.available_addresses();
        (self.base_address as u64 + (count - 1)) as u32
    }
}

} // verus!
