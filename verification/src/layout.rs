//! The allocator: gives each subnet, in the order it is handed them, the
//! block of addresses that starts where the block before it ended.

use vstd::prelude::*;
use vstd::arithmetic::div_mod::lemma_small_mod;
use vstd::arithmetic::logarithm::*;
use vstd::arithmetic::power2::*;
use crate::network::ADDRESS_SPACE;
use crate::ordering::subnet_views;
use crate::power::{
    lemma_leading_zeros_below_pow2, lemma_multiple_of_multiple, lemma_pow2_divides,
    lemma_sum_of_multiples,
};
use crate::subnet::{is_block_size, Subnet, SubnetView};

verus! {

/// A subnet with its place in the address space.
#[derive(Debug)]
pub struct AllocatedSubnet {
    pub name: String,
    pub size: u32,
    pub base_address: u32,
    pub broadcast_address: u32,
    pub subnet_mask: u32,
    pub prefix_length: u8,
}

/// What an allocated subnet says, in numbers without a width.
pub struct AllocatedView {
    pub name: Seq<char>,
    pub size: int,
    pub base_address: int,
    pub broadcast_address: int,
    pub subnet_mask: int,
    pub prefix_length: int,
}

impl AllocatedView {
    /// What holds of every subnet that the allocator has placed: its
    /// broadcast address is the last address of its block, and its prefix
    /// length and mask are those of its size.
    pub open spec fn is_placed(self) -> bool {
        &&& self.size >= 0
        &&& self.broadcast_address == self.base_address + self.size - 1
        &&& self.prefix_length == prefix_length_of(self.size as nat)
        &&& self.subnet_mask == subnet_mask_of(self.prefix_length)
    }
}

impl View for AllocatedSubnet {
    type V = AllocatedView;

    open spec fn view(&self) -> AllocatedView {
        AllocatedView {
            name: self.name@,
            size: self.size as int,
            base_address: self.base_address as int,
            broadcast_address: self.broadcast_address as int,
            subnet_mask: self.subnet_mask as int,
            prefix_length: self.prefix_length as int,
        }
    }
}

impl PartialEq for AllocatedSubnet {
    /// Two allocated subnets are equal when they agree in every field.
    fn eq(&self, other: &Self) -> (equal: bool) {
        self.name == other.name && self.size == other.size && self.base_address
            == other.base_address && self.broadcast_address == other.broadcast_address
            && self.subnet_mask == other.subnet_mask && self.prefix_length == other.prefix_length
    }
}

impl vstd::std_specs::cmp::PartialEqSpecImpl for AllocatedSubnet {
    open spec fn obeys_eq_spec() -> bool {
        true
    }

    open spec fn eq_spec(&self, other: &Self) -> bool {
        self@ == other@
    }
}

impl Eq for AllocatedSubnet {

}

impl Clone for AllocatedSubnet {
    fn clone(&self) -> (copy: Self)
        ensures
            copy == *self,
    {
        AllocatedSubnet {
            name: self.name.clone(),
            size: self.size,
            base_address: self.base_address,
            broadcast_address: self.broadcast_address,
            subnet_mask: self.subnet_mask,
            prefix_length: self.prefix_length,
        }
    }
}

/// What each of a sequence of allocated subnets says.
pub open spec fn allocated_views(subnets: Seq<AllocatedSubnet>) -> Seq<AllocatedView> {
    subnets.map_values(|s: AllocatedSubnet| s@)
}

/// The prefix length of a block of `size` addresses: the 32 bits of an
/// address less the bits that tell the addresses of the block apart.
pub open spec fn prefix_length_of(size: nat) -> int {
    32 - log(2, size as int)
}

/// The mask of a prefix: `prefix_length` one bits followed by zero bits, as
/// a number.
pub open spec fn subnet_mask_of(prefix_length: int) -> int {
    ADDRESS_SPACE - pow2((32 - prefix_length) as nat)
}

/// The subnet placed at `base_address`.
pub open spec fn placed(subnet: SubnetView, base_address: int) -> AllocatedView {
    AllocatedView {
        name: subnet.name,
        size: subnet.size as int,
        base_address,
        broadcast_address: base_address + subnet.size - 1,
        subnet_mask: subnet_mask_of(prefix_length_of(subnet.size)),
        prefix_length: prefix_length_of(subnet.size),
    }
}

/// The number of addresses that the subnets take together.
pub open spec fn total_size(subnets: Seq<SubnetView>) -> nat
    decreases subnets.len(),
{
    if subnets.len() == 0 {
        0
    } else {
        total_size(subnets.drop_last()) + subnets.last().size
    }
}

/// The subnets placed one after the other from `base_address` on: each
/// starts as many addresses after `base_address` as the subnets before it
/// take.
pub open spec fn laid_out(base_address: nat, subnets: Seq<SubnetView>) -> Seq<AllocatedView> {
    Seq::new(
        subnets.len(),
        |i: int| placed(subnets[i], (base_address + total_size(subnets.take(i))) as int),
    )
}

/// Taking one subnet more adds its size to the total.
pub proof fn lemma_total_size_step(subnets: Seq<SubnetView>, count: int)
    requires
        0 <= count < subnets.len(),
    ensures
        total_size(subnets.take(count + 1)) == total_size(subnets.take(count))
            + subnets[count].size,
{
    assert(subnets.take(count + 1).drop_last() =~= subnets.take(count));
}

/// The first subnets never take more than all of them.
pub proof fn lemma_total_size_grows(subnets: Seq<SubnetView>, count: int)
    requires
        0 <= count <= subnets.len(),
    ensures
        total_size(subnets.take(count)) <= total_size(subnets),
    decreases subnets.len() - count,
{
    if count < subnets.len() {
        lemma_total_size_step(subnets, count);
        lemma_total_size_grows(subnets, count + 1);
    } else {
        assert(subnets.take(count) =~= subnets);
    }
}

/// The total size does not depend on the order of the subnets.
pub proof fn lemma_total_size_of_rearranged(a: Seq<SubnetView>, b: Seq<SubnetView>)
    requires
        a.to_multiset() == b.to_multiset(),
    ensures
        total_size(a) == total_size(b),
    decreases a.len(),
{
    a.to_multiset_ensures();
    b.to_multiset_ensures();
    if a.len() > 0 {
        let moved = a.last();
        assert(a.to_multiset().count(moved) > 0) by {
            assert(a.contains(moved));
        }
        assert(b.contains(moved));
        let at = choose|i: int| 0 <= i < b.len() && b[i] == moved;
        assert(a.drop_last() =~= a.remove(a.len() - 1));
        lemma_total_size_of_rearranged(a.drop_last(), b.remove(at));
        lemma_total_size_without(b, at);
    }
}

/// Leaving one subnet out takes its size off the total.
pub proof fn lemma_total_size_without(subnets: Seq<SubnetView>, at: int)
    requires
        0 <= at < subnets.len(),
    ensures
        total_size(subnets) == total_size(subnets.remove(at)) + subnets[at].size,
    decreases subnets.len(),
{
    if at == subnets.len() - 1 {
        assert(subnets.remove(at) =~= subnets.drop_last());
    } else {
        lemma_total_size_without(subnets.drop_last(), at);
        assert(subnets.remove(at).drop_last() =~= subnets.drop_last().remove(at));
    }
}

/// Laid out subnets keep their names and sizes and stand one directly after
/// the other: the first starts at the base address, each next one where the
/// one before it ended, with no gap and no overlap, and each one's
/// broadcast address is the last address of its block.
pub proof fn lemma_laid_out_is_contiguous(base_address: nat, subnets: Seq<SubnetView>)
    ensures
        laid_out(base_address, subnets).len() == subnets.len(),
        subnets.len() > 0 ==> laid_out(base_address, subnets)[0].base_address == base_address,
        forall|i: int|
            0 <= i < subnets.len() ==> (#[trigger] laid_out(base_address, subnets)[i]).name
                == subnets[i].name && laid_out(base_address, subnets)[i].size == subnets[i].size,
        forall|i: int, j: int|
            0 <= i < subnets.len() && j == i + 1 && j < subnets.len() ==> (#[trigger] laid_out(
                base_address,
                subnets,
            )[j]).base_address == (#[trigger] laid_out(base_address, subnets)[i]).base_address
                + laid_out(base_address, subnets)[i].size,
        forall|i: int|
            0 <= i < subnets.len() ==> (#[trigger] laid_out(
                base_address,
                subnets,
            )[i]).broadcast_address == laid_out(base_address, subnets)[i].base_address + laid_out(
                base_address,
                subnets,
            )[i].size - 1,
        forall|i: int|
            0 <= i < subnets.len() ==> (#[trigger] laid_out(base_address, subnets)[i]).is_placed(),
        subnets.len() > 0 ==> laid_out(base_address, subnets).last().broadcast_address + 1
            == base_address + total_size(subnets),
{
    assert(subnets.take(0) =~= Seq::<SubnetView>::empty());
    assert forall|i: int, j: int|
        0 <= i < subnets.len() && j == i + 1 && j < subnets.len() implies (#[trigger] laid_out(
        base_address,
        subnets,
    )[j]).base_address == (#[trigger] laid_out(base_address, subnets)[i]).base_address + laid_out(
        base_address,
        subnets,
    )[i].size by {
        lemma_total_size_step(subnets, i);
    }
    if subnets.len() > 0 {
        lemma_total_size_step(subnets, subnets.len() - 1);
        assert(subnets.take(subnets.len() as int) =~= subnets);
    }
}

/// Laid out subnets of at least one address each do not overlap, and come
/// in rising order of address: each ends before any later one starts.
pub proof fn lemma_laid_out_is_disjoint(base_address: nat, subnets: Seq<SubnetView>)
    requires
        forall|i: int| 0 <= i < subnets.len() ==> (#[trigger] subnets[i]).size >= 1,
    ensures
        forall|i: int, j: int|
            0 <= i < j < subnets.len() ==> (#[trigger] laid_out(
                base_address,
                subnets,
            )[i]).broadcast_address < (#[trigger] laid_out(base_address, subnets)[j]).base_address,
{
    assert forall|i: int, j: int| 0 <= i < j < subnets.len() implies (#[trigger] laid_out(
        base_address,
        subnets,
    )[i]).broadcast_address < (#[trigger] laid_out(base_address, subnets)[j]).base_address by {
        lemma_total_size_step(subnets, i);
        lemma_total_size_grows(subnets.take(j), i + 1);
        assert(subnets.take(j).take(i + 1) =~= subnets.take(i + 1));
    }
}

/// Of two block sizes the smaller divides the larger.
pub proof fn lemma_smaller_block_divides(larger: nat, smaller: nat)
    requires
        is_block_size(larger),
        is_block_size(smaller),
        larger >= smaller,
    ensures
        smaller > 0,
        larger % smaller == 0,
{
    let a = choose|bits: nat| 1 <= bits <= 31 && larger == #[trigger] pow2(bits);
    let b = choose|bits: nat| 1 <= bits <= 31 && smaller == #[trigger] pow2(bits);
    lemma_pow2_pos(b);
    lemma_pow2_divides(a, b);
}

/// In a sequence of blocks that never grow, the blocks before any one of
/// them take a multiple of its size together.
proof fn lemma_total_before_is_multiple(subnets: Seq<SubnetView>, count: int, at: int)
    requires
        0 <= count <= at < subnets.len(),
        forall|i: int| 0 <= i < subnets.len() ==> is_block_size((#[trigger] subnets[i]).size),
        forall|i: int, j: int|
            0 <= i < j < subnets.len() ==> (#[trigger] subnets[i]).size >= (
            #[trigger] subnets[j]).size,
    ensures
        total_size(subnets.take(count)) % subnets[at].size == 0,
    decreases count,
{
    lemma_smaller_block_divides(subnets[at].size, subnets[at].size);
    if count == 0 {
        assert(subnets.take(0) =~= Seq::<SubnetView>::empty());
        lemma_small_mod(0, subnets[at].size);
    } else {
        lemma_total_before_is_multiple(subnets, count - 1, at);
        lemma_total_size_step(subnets, count - 1);
        lemma_smaller_block_divides(subnets[count - 1].size, subnets[at].size);
        lemma_sum_of_multiples(
            total_size(subnets.take(count - 1)),
            subnets[count - 1].size,
            subnets[at].size,
        );
    }
}

/// Blocks that never grow, laid out from a multiple of the first block's
/// size, are each aligned: every block starts at a multiple of its own
/// size, though nothing was done to align it.
pub proof fn lemma_laid_out_is_aligned(base_address: nat, subnets: Seq<SubnetView>)
    requires
        forall|i: int| 0 <= i < subnets.len() ==> is_block_size((#[trigger] subnets[i]).size),
        forall|i: int, j: int|
            0 <= i < j < subnets.len() ==> (#[trigger] subnets[i]).size >= (
            #[trigger] subnets[j]).size,
        subnets.len() > 0 ==> base_address % subnets[0].size == 0,
    ensures
        forall|i: int|
            0 <= i < subnets.len() ==> (#[trigger] laid_out(base_address, subnets)[i]).base_address
                % laid_out(base_address, subnets)[i].size == 0,
{
    assert forall|i: int| 0 <= i < subnets.len() implies (#[trigger] laid_out(
        base_address,
        subnets,
    )[i]).base_address % laid_out(base_address, subnets)[i].size == 0 by {
        lemma_total_before_is_multiple(subnets, i, i);
        lemma_smaller_block_divides(subnets[0].size, subnets[i].size);
        lemma_smaller_block_divides(subnets[0].size, subnets[0].size);
        lemma_multiple_of_multiple(base_address, subnets[0].size, subnets[i].size);
        lemma_sum_of_multiples(base_address, total_size(subnets.take(i)), subnets[i].size);
    }
}

/// The prefix length and the mask of a block size: the block's exponent
/// taken off 32, and the address space less the block.
pub proof fn lemma_block_prefix_and_mask(size: nat)
    requires
        is_block_size(size),
    ensures
        1 <= prefix_length_of(size) <= 31,
        size == pow2((32 - prefix_length_of(size)) as nat),
        subnet_mask_of(prefix_length_of(size)) == ADDRESS_SPACE - size,
{
    let bits = choose|bits: nat| 1 <= bits <= 31 && size == #[trigger] pow2(bits);
    lemma2_to64();
    if bits < 31 {
        lemma_pow2_strictly_increases(bits, 31);
    }
    lemma_leading_zeros_below_pow2(size as u32, bits);
}

/// Subnets with their places, and where the next one would start.
#[derive(Debug, PartialEq, Eq)]
pub struct Layout {
    pub subnets: Vec<AllocatedSubnet>,
    pub end: u64,
}

/// Places a subnet at `base_address`.
fn place(subnet: &Subnet, base_address: u32) -> (allocated: AllocatedSubnet)
    requires
        base_address + subnet@.size <= ADDRESS_SPACE,
    ensures
        allocated@ == placed(subnet@, base_address as int),
{
    let size = subnet.size();
    proof {
        lemma_block_prefix_and_mask(size as nat);
        let bits = choose|bits: nat| 1 <= bits <= 31 && size == #[trigger] pow2(bits);
        lemma_leading_zeros_below_pow2(size, bits);
    }
    let prefix_length = (size - 1).leading_zeros();
    AllocatedSubnet {
        name: subnet.name().to_owned(),
        size,
        base_address,
        broadcast_address: base_address + (size - 1),
        subnet_mask: (ADDRESS_SPACE - size as u64) as u32,
        prefix_length: prefix_length as u8,
    }
}

/// Places the subnets one after the other from `base_address` on, in the
/// order given.
///
/// The subnets may take more room than any parent network has: that is for
/// the caller to judge, by `end`. There is no layout only when a block would
/// reach past the last address that 32 bits can hold.
pub fn lay_out(base_address: u32, subnets: &Vec<Subnet>) -> (result: Option<Layout>)
    ensures
        result is Some <==> base_address + total_size(subnet_views(subnets@)) <= ADDRESS_SPACE,
        result matches Some(layout) ==> allocated_views(layout.subnets@) == laid_out(
            base_address as nat,
            subnet_views(subnets@),
        ) && layout.end == base_address + total_size(subnet_views(subnets@)),
        result matches Some(layout) ==> forall|i: int|
            0 <= i < layout.subnets.len() ==> (#[trigger] layout.subnets[i])@.is_placed(),
{
    let ghost views = subnet_views(subnets@);
    let mut allocated: Vec<AllocatedSubnet> = Vec::new();
    let mut cursor: u64 = base_address as u64;
    let mut done: usize = 0;
    assert(views.take(0) =~= Seq::<SubnetView>::empty());
    while done < subnets.len()
        invariant
            done <= subnets.len(),
            views == subnet_views(subnets@),
            cursor == base_address + total_size(views.take(done as int)),
            cursor <= ADDRESS_SPACE,
            allocated.len() == done,
            forall|i: int|
                0 <= i < done ==> (#[trigger] allocated[i])@ == laid_out(
                    base_address as nat,
                    views,
                )[i],
        decreases subnets.len() - done,
    {
        let subnet = &subnets[done];
        let size = subnet.size();
        proof {
            lemma_total_size_step(views, done as int);
            lemma_total_size_grows(views, done + 1);
        }
        if cursor + size as u64 > ADDRESS_SPACE {
            return None;
        }
        allocated.push(place(subnet, cursor as u32));
        cursor = cursor + size as u64;
        done += 1;
    }
    proof {
        assert(views.take(done as int) =~= views);
        assert(allocated_views(allocated@) =~= laid_out(base_address as nat, views));
        lemma_laid_out_is_contiguous(base_address as nat, views);
    }
    Some(Layout { subnets: allocated, end: cursor })
}

} // verus!
