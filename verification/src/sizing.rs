//! Subnet sizing: from a minimum number of usable hosts to the size of the
//! address block that holds them.

use vstd::prelude::*;
use vstd::arithmetic::logarithm::*;
use vstd::arithmetic::power2::*;
use vstd::bits::*;
use crate::error::AllocationError;
use crate::power::{lemma_leading_zeros_log2, lemma_log2_bracket, lemma_log2_of_bracket};

verus! {

/// The largest block that a 32-bit size can describe: half the address space.
pub const MAX_BLOCK_SIZE: u32 = 0x8000_0000;

/// The number of host bits of the block for `min_usable_hosts` hosts: the
/// bits needed to write `min_usable_hosts + 1`, the largest offset that the
/// block must reach (hosts, plus the network address, counted from zero).
pub open spec fn host_bits(min_usable_hosts: nat) -> nat {
    (log(2, (min_usable_hosts + 1) as int) + 1) as nat
}

/// The size of the block for `min_usable_hosts` hosts: two to the power of
/// its host bits. It is the least power of two that holds the hosts and the
/// two reserved addresses, the network and the broadcast address.
pub open spec fn block_size(min_usable_hosts: nat) -> nat {
    pow2(host_bits(min_usable_hosts))
}

/// A block size is a power of two that has room for the hosts asked for and
/// the two reserved addresses, and no smaller power of two has: half of it
/// is too small already, and so is every power of two below it.
pub proof fn lemma_block_size_is_least_power_of_two(min_usable_hosts: nat)
    ensures
        block_size(min_usable_hosts) == pow2(host_bits(min_usable_hosts)),
        block_size(min_usable_hosts) >= min_usable_hosts + 2,
        block_size(min_usable_hosts) % 2 == 0,
        block_size(min_usable_hosts) / 2 < min_usable_hosts + 2,
        forall|e: nat| #[trigger]
            pow2(e) >= min_usable_hosts + 2 ==> pow2(e) >= block_size(min_usable_hosts),
{
    let n = min_usable_hosts + 1;
    let bits = host_bits(min_usable_hosts);
    lemma_log2_bracket(n);
    assert(bits >= 1);
    lemma_pow2_unfold(bits);
    assert forall|e: nat| #[trigger] pow2(e) >= min_usable_hosts + 2 implies pow2(e) >= block_size(
        min_usable_hosts,
    ) by {
        if e > bits {
            lemma_pow2_strictly_increases(bits, e);
        } else if e < bits - 1 {
            lemma_pow2_strictly_increases(e, (bits - 1) as nat);
        }
    }
}

/// The block size is the only power of two that has room for the hosts and
/// the two reserved addresses while its half has not.
pub proof fn lemma_block_size_is_unique(min_usable_hosts: nat, bits: nat)
    requires
        bits >= 1,
        pow2((bits - 1) as nat) < min_usable_hosts + 2 <= pow2(bits),
    ensures
        host_bits(min_usable_hosts) == bits,
        block_size(min_usable_hosts) == pow2(bits),
{
    lemma_log2_of_bracket(min_usable_hosts + 1, (bits - 1) as nat);
}

/// Sizes the block for `min_usable_hosts` hosts.
///
/// Fails with `OutOfRange` exactly when the block would be larger than
/// `MAX_BLOCK_SIZE`, that is when more than `MAX_BLOCK_SIZE - 2` hosts are
/// asked for.
pub fn block_size_for(min_usable_hosts: u32) -> (result: Result<u32, AllocationError>)
    ensures
        match result {
            Ok(size) => size == block_size(min_usable_hosts as nat) && 2 <= size <= MAX_BLOCK_SIZE,
            Err(e) => e == AllocationError::OutOfRange && block_size(min_usable_hosts as nat)
                > MAX_BLOCK_SIZE,
        },
        result is Ok <==> min_usable_hosts + 2 <= MAX_BLOCK_SIZE,
{
    proof {
        lemma_block_size_is_least_power_of_two(min_usable_hosts as nat);
        lemma2_to64();
    }
    if min_usable_hosts > MAX_BLOCK_SIZE - 2 {
        return Err(AllocationError::OutOfRange);
    }
    let highest_offset: u32 = min_usable_hosts + 1;
    let bits: u32 = 32 - highest_offset.leading_zeros();
    proof {
        lemma_leading_zeros_log2(highest_offset);
        assert(bits == host_bits(min_usable_hosts as nat));
        lemma_log2_bracket(highest_offset as nat);
        if bits > 31 {
            lemma_pow2_strictly_increases(31, (bits - 1) as nat);
        }
        assert(bits <= 31);
        if bits < 31 {
            lemma_pow2_strictly_increases(bits as nat, 31);
        }
        lemma_u32_shl_is_mul(1, bits);
    }
    Ok(1u32 << bits)
}

} // verus!
