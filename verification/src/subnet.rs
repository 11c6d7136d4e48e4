//! Subnet requests and the sized subnets made from them.

use vstd::prelude::*;
use vstd::arithmetic::logarithm::lemma_log_nonnegative;
use vstd::arithmetic::power2::*;
use crate::error::AllocationError;
use crate::sizing::{
    block_size, block_size_for, host_bits, lemma_block_size_is_least_power_of_two, MAX_BLOCK_SIZE,
};

verus! {

/// A caller's wish for one subnet: a name and the least number of hosts
/// that the subnet must be able to address.
#[derive(Debug)]
pub struct SubnetRequest {
    pub name: String,
    pub min_usable_hosts: u32,
}

/// What a request says: its name as a sequence of characters and its host
/// count as a number.
pub struct RequestView {
    pub name: Seq<char>,
    pub min_usable_hosts: nat,
}

impl View for SubnetRequest {
    type V = RequestView;

    open spec fn view(&self) -> RequestView {
        RequestView { name: self.name@, min_usable_hosts: self.min_usable_hosts as nat }
    }
}

impl PartialEq for SubnetRequest {
    /// Two requests are equal when they have the same name and host count.
    fn eq(&self, other: &Self) -> (equal: bool) {
        self.name == other.name && self.min_usable_hosts == other.min_usable_hosts
    }
}

impl vstd::std_specs::cmp::PartialEqSpecImpl for SubnetRequest {
    open spec fn obeys_eq_spec() -> bool {
        true
    }

    open spec fn eq_spec(&self, other: &Self) -> bool {
        self@ == other@
    }
}

impl Eq for SubnetRequest {

}

impl Clone for SubnetRequest {
    fn clone(&self) -> (copy: Self)
        ensures
            copy == *self,
    {
        SubnetRequest { name: self.name.clone(), min_usable_hosts: self.min_usable_hosts }
    }
}

/// A block size that a subnet can have: a power of two from 2, the network
/// and the broadcast address alone, up to half the address space.
pub open spec fn is_block_size(size: nat) -> bool {
    exists|bits: nat| 1 <= bits <= 31 && size == #[trigger] pow2(bits)
}

/// A named subnet with the size of its address block. The size is always a
/// block size in the sense of `is_block_size`.
#[derive(Debug)]
pub struct Subnet {
    name: String,
    size: u32,
}

/// What a subnet is: a name and a block size.
pub struct SubnetView {
    pub name: Seq<char>,
    pub size: nat,
}

impl View for Subnet {
    type V = SubnetView;

    closed spec fn view(&self) -> SubnetView {
        SubnetView { name: self.name@, size: self.size as nat }
    }
}

impl Subnet {
    #[verifier::type_invariant]
    spec fn well_sized(self) -> bool {
        is_block_size(self.size as nat)
    }

    /// Sizes a subnet for `min_usable_hosts` hosts.
    ///
    /// Fails with `OutOfRange` exactly when the block for that many hosts is
    /// larger than half the address space.
    pub fn new(name: &str, min_usable_hosts: u32) -> (result: Result<Subnet, AllocationError>)
        ensures
            match result {
                Ok(subnet) => subnet@ == (SubnetView {
                    name: name@,
                    size: block_size(min_usable_hosts as nat),
                }) && is_block_size(subnet@.size),
                Err(e) => e == AllocationError::OutOfRange && !is_block_size(
                    block_size(min_usable_hosts as nat),
                ),
            },
    {
        proof {
            lemma_block_size_fits(min_usable_hosts as nat);
        }
        match block_size_for(min_usable_hosts) {
            Ok(size) => Ok(Subnet { name: name.to_owned(), size }),
            Err(e) => Err(e),
        }
    }

    /// Sizes the subnet that a request asks for.
    pub fn from_request(request: &SubnetRequest) -> (result: Result<Subnet, AllocationError>)
        ensures
            match result {
                Ok(subnet) => subnet@ == sized(request@) && is_block_size(subnet@.size),
                Err(e) => e == AllocationError::OutOfRange && !is_sizable(request@),
            },
    {
        Subnet::new(request.name.as_str(), request.min_usable_hosts)
    }

    /// The subnet's name.
    pub fn name(&self) -> (name: &str)
        ensures
            name@ == self@.name,
    {
        self.name.as_str()
    }

    /// The number of addresses in the subnet's block.
    pub fn size(&self) -> (size: u32)
        ensures
            size == self@.size,
            is_block_size(size as nat),
            2 <= size <= MAX_BLOCK_SIZE,
    {
        proof {
            use_type_invariant(self);
            lemma_block_size_bounds(self.size as nat);
        }
        self.size
    }
}

impl PartialEq for Subnet {
    /// Two subnets are equal when they have the same name and size.
    fn eq(&self, other: &Self) -> (equal: bool) {
        self.name == other.name && self.size == other.size
    }
}

impl vstd::std_specs::cmp::PartialEqSpecImpl for Subnet {
    open spec fn obeys_eq_spec() -> bool {
        true
    }

    open spec fn eq_spec(&self, other: &Self) -> bool {
        self@ == other@
    }
}

impl Eq for Subnet {

}

impl Clone for Subnet {
    fn clone(&self) -> (copy: Self)
        ensures
            copy@ == self@,
    {
        proof {
            use_type_invariant(self);
        }
        Subnet { name: self.name.clone(), size: self.size }
    }
}

/// Every block size lies between 2 and half the address space.
pub proof fn lemma_block_size_bounds(size: nat)
    requires
        is_block_size(size),
    ensures
        2 <= size <= MAX_BLOCK_SIZE,
{
    let bits = choose|bits: nat| 1 <= bits <= 31 && size == #[trigger] pow2(bits);
    lemma2_to64();
    lemma_pow2_unfold(bits);
    lemma_pow2_pos((bits - 1) as nat);
    if bits < 31 {
        lemma_pow2_strictly_increases(bits, 31);
    }
}

/// Whether a request can be sized: whether its block is a block size.
pub open spec fn is_sizable(request: RequestView) -> bool {
    is_block_size(block_size(request.min_usable_hosts))
}

/// The subnet that a request asks for.
pub open spec fn sized(request: RequestView) -> SubnetView {
    SubnetView { name: request.name, size: block_size(request.min_usable_hosts) }
}

/// A request can be sized exactly when its hosts and the two reserved
/// addresses fit in half the address space.
pub proof fn lemma_block_size_fits(min_usable_hosts: nat)
    ensures
        is_block_size(block_size(min_usable_hosts)) <==> min_usable_hosts + 2 <= MAX_BLOCK_SIZE,
        is_block_size(block_size(min_usable_hosts)) <==> block_size(min_usable_hosts)
            <= MAX_BLOCK_SIZE,
{
    lemma_block_size_is_least_power_of_two(min_usable_hosts);
    lemma2_to64();
    let bits = host_bits(min_usable_hosts);
    let size = block_size(min_usable_hosts);
    assert(bits >= 1) by {
        lemma_log_nonnegative(2, (min_usable_hosts + 1) as int);
    }
    if bits <= 31 {
        if bits < 31 {
            lemma_pow2_strictly_increases(bits, 31);
        }
        assert(is_block_size(size));
    } else {
        lemma_pow2_strictly_increases(31, bits);
        assert(pow2(31) >= min_usable_hosts + 2 ==> pow2(31) >= size);
        if is_block_size(size) {
            let e = choose|e: nat| 1 <= e <= 31 && size == #[trigger] pow2(e);
            if e < 31 {
                lemma_pow2_strictly_increases(e, 31);
            }
        }
    }
}

} // verus!
