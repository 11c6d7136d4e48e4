//! The whole of an allocation: requests are sized, put in order and laid
//! out from the parent network's base address, and the room they take is
//! held against the room that the parent has.

use vstd::prelude::*;
use vstd::arithmetic::power2::{lemma_pow2_pos, pow2};
use crate::error::AllocationError;
use vstd::seq_lib::to_multiset_insert;
use crate::layout::{
    allocated_views, laid_out, lay_out, lemma_laid_out_is_aligned, lemma_laid_out_is_contiguous,
    lemma_laid_out_is_disjoint,
    lemma_total_size_grows, lemma_total_size_of_rearranged, lemma_total_size_step, total_size,
    AllocatedSubnet, AllocatedView,
};
use crate::network::{NetworkView, ParentNetwork};
use crate::power::{lemma_multiple_of_multiple, lemma_pow2_divides};
use crate::ordering::{
    lemma_ordered_ignores_given_order, lemma_ordered_is_sorted, order_subnets, ordered,
    subnet_views, TieBreak,
};
use crate::subnet::{
    is_block_size, is_sizable, lemma_block_size_bounds, sized, RequestView, Subnet,
    SubnetRequest, SubnetView,
};

verus! {

/// The result of an allocation that succeeded.
#[derive(Debug, PartialEq, Eq)]
pub struct AllocationReport {
    pub parent_base_address: u32,
    pub parent_broadcast_address: u32,
    pub subnets: Vec<AllocatedSubnet>,
    pub total_available: u64,
    pub total_used: u64,
}

/// What a report says, in numbers without a width.
pub struct ReportView {
    pub parent_base_address: int,
    pub parent_broadcast_address: int,
    pub subnets: Seq<AllocatedView>,
    pub total_available: nat,
    pub total_used: nat,
}

impl View for AllocationReport {
    type V = ReportView;

    open spec fn view(&self) -> ReportView {
        ReportView {
            parent_base_address: self.parent_base_address as int,
            parent_broadcast_address: self.parent_broadcast_address as int,
            subnets: allocated_views(self.subnets@),
            total_available: self.total_available as nat,
            total_used: self.total_used as nat,
        }
    }
}

/// What each of a sequence of requests says.
pub open spec fn request_views(requests: Seq<SubnetRequest>) -> Seq<RequestView> {
    requests.map_values(|r: SubnetRequest| r@)
}

/// Whether every request can be sized.
pub open spec fn all_sizable(requests: Seq<RequestView>) -> bool {
    forall|i: int| 0 <= i < requests.len() ==> is_sizable(#[trigger] requests[i])
}

/// The subnets that the requests ask for, in the order of the requests.
pub open spec fn sized_all(requests: Seq<RequestView>) -> Seq<SubnetView> {
    requests.map_values(|r: RequestView| sized(r))
}

/// What an allocation comes to. If a request cannot be sized, it is out of
/// range. Else the subnets are put in order; if together they take more
/// addresses than the parent has, the address space is exhausted; else
/// they are laid out from the parent's base address.
pub open spec fn allocation(
    parent: NetworkView,
    requests: Seq<RequestView>,
    direction: TieBreak,
) -> Result<ReportView, AllocationError> {
    if !all_sizable(requests) {
        Err(AllocationError::OutOfRange)
    } else {
        let subnets = ordered(sized_all(requests), direction);
        if total_size(subnets) > parent.available_addresses() {
            Err(AllocationError::AddressSpaceExhausted)
        } else {
            Ok(
                ReportView {
                    parent_base_address: parent.base_address as int,
                    parent_broadcast_address: parent.broadcast_address(),
                    subnets: laid_out(parent.base_address, subnets),
                    total_available: parent.available_addresses(),
                    total_used: total_size(subnets),
                },
            )
        }
    }
}

/// What the result of an allocation says.
pub open spec fn outcome_view(result: Result<AllocationReport, AllocationError>) -> Result<
    ReportView,
    AllocationError,
> {
    match result {
        Ok(report) => Ok(report@),
        Err(e) => Err(e),
    }
}

/// The address space is exhausted exactly when all requests can be sized
/// and their blocks together take more addresses than the parent has; with
/// exactly as many as the parent has the allocation succeeds. It is out of
/// range exactly when some request cannot be sized.
pub proof fn lemma_exhausted_iff_over_capacity(
    parent: NetworkView,
    requests: Seq<RequestView>,
    direction: TieBreak,
)
    ensures
        allocation(parent, requests, direction) == Err::<ReportView, AllocationError>(
            AllocationError::AddressSpaceExhausted,
        ) <==> all_sizable(requests) && total_size(sized_all(requests))
            > parent.available_addresses(),
        allocation(parent, requests, direction) == Err::<ReportView, AllocationError>(
            AllocationError::OutOfRange,
        ) <==> !all_sizable(requests),
        allocation(parent, requests, direction) is Ok <==> all_sizable(requests) && total_size(
            sized_all(requests),
        ) <= parent.available_addresses(),
        allocation(parent, requests, direction) matches Ok(report) ==> report.total_used
            == total_size(sized_all(requests)) && report.total_available
            == parent.available_addresses(),
{
    lemma_ordered_is_sorted(sized_all(requests), direction);
    lemma_total_size_of_rearranged(ordered(sized_all(requests), direction), sized_all(requests));
}

/// A report places every request's subnet, larger blocks first. The first
/// block starts at the parent's base address and each next one where the
/// one before it ended, so that no two overlap and none is left out of the
/// count; each block's broadcast address is its last address; and all of
/// them lie within the parent network.
pub proof fn lemma_report_is_contiguous(
    parent: NetworkView,
    requests: Seq<RequestView>,
    direction: TieBreak,
)
    ensures
        allocation(parent, requests, direction) matches Ok(report) ==> {
            &&& report.subnets.len() == requests.len()
            &&& report.subnets.len() > 0 ==> report.subnets[0].base_address
                == parent.base_address
            &&& forall|i: int, j: int|
                0 <= i < report.subnets.len() && j == i + 1 && j < report.subnets.len() ==> (
                #[trigger] report.subnets[j]).base_address == (
                #[trigger] report.subnets[i]).base_address + report.subnets[i].size
            &&& forall|i: int|
                0 <= i < report.subnets.len() ==> (#[trigger] report.subnets[i]).broadcast_address
                    == report.subnets[i].base_address + report.subnets[i].size - 1
            &&& forall|i: int, j: int|
                0 <= i < j < report.subnets.len() ==> (#[trigger] report.subnets[i]).size >= (
                #[trigger] report.subnets[j]).size
            &&& forall|i: int, j: int|
                0 <= i < j < report.subnets.len() ==> (
                #[trigger] report.subnets[i]).broadcast_address < (
                #[trigger] report.subnets[j]).base_address
            &&& forall|i: int|
                0 <= i < report.subnets.len() ==> parent.base_address <= (
                #[trigger] report.subnets[i]).base_address
                    && report.subnets[i].broadcast_address <= parent.broadcast_address()
            &&& report.subnets.len() > 0 ==> report.subnets.last().broadcast_address + 1
                == parent.base_address + report.total_used
        },
{
    if let Ok(report) = allocation(parent, requests, direction) {
        let subnets = ordered(sized_all(requests), direction);
        lemma_ordered_is_sorted(sized_all(requests), direction);
        lemma_laid_out_is_contiguous(parent.base_address, subnets);
        assert forall|i: int| 0 <= i < subnets.len() implies (#[trigger] subnets[i]).size >= 1 by {
            sized_all(requests).to_multiset_ensures();
            subnets.to_multiset_ensures();
            assert(subnets.contains(subnets[i]));
            assert(subnets.to_multiset().count(subnets[i]) > 0);
            assert(sized_all(requests).to_multiset().count(subnets[i]) > 0);
            assert(sized_all(requests).contains(subnets[i]));
            let at = choose|at: int|
                0 <= at < requests.len() && sized_all(requests)[at] == subnets[i];
            assert(is_sizable(requests[at]));
            lemma_block_size_bounds(subnets[i].size);
        }
        lemma_laid_out_is_disjoint(parent.base_address, subnets);
        assert forall|i: int| 0 <= i < report.subnets.len() implies parent.base_address <= (
        #[trigger] report.subnets[i]).base_address && report.subnets[i].broadcast_address
            <= parent.broadcast_address() by {
            lemma_total_size_step(subnets, i);
            lemma_total_size_grows(subnets, i + 1);
        }
    }
}

/// Every block of a report is aligned: it starts at a multiple of its own
/// size, so that its base address has no bit set where its mask has none.
pub proof fn lemma_report_is_aligned(
    parent: NetworkView,
    requests: Seq<RequestView>,
    direction: TieBreak,
)
    requires
        parent.is_network(),
    ensures
        allocation(parent, requests, direction) matches Ok(report) ==> forall|i: int|
            0 <= i < report.subnets.len() ==> (#[trigger] report.subnets[i]).base_address
                % report.subnets[i].size == 0,
{
    if let Ok(report) = allocation(parent, requests, direction) {
        let subnets = ordered(sized_all(requests), direction);
        lemma_ordered_is_sorted(sized_all(requests), direction);
        assert forall|i: int| 0 <= i < subnets.len() implies is_block_size(
            (#[trigger] subnets[i]).size,
        ) by {
            sized_all(requests).to_multiset_ensures();
            subnets.to_multiset_ensures();
            assert(subnets.contains(subnets[i]));
            assert(subnets.to_multiset().count(subnets[i]) > 0);
            assert(sized_all(requests).to_multiset().count(subnets[i]) > 0);
            assert(sized_all(requests).contains(subnets[i]));
            let at = choose|at: int|
                0 <= at < requests.len() && sized_all(requests)[at] == subnets[i];
            assert(is_sizable(requests[at]));
        }
        if subnets.len() > 0 {
            let first = subnets[0].size;
            let bits = choose|bits: nat| 1 <= bits <= 31 && first == #[trigger] pow2(bits);
            lemma_total_size_step(subnets, 0);
            lemma_total_size_grows(subnets, 1);
            assert(subnets.take(0) =~= Seq::<SubnetView>::empty());
            lemma_pow2_pos(bits);
            lemma_pow2_divides((32 - parent.prefix_length) as nat, bits);
            lemma_pow2_pos((32 - parent.prefix_length) as nat);
            lemma_multiple_of_multiple(parent.base_address, parent.available_addresses(), first);
        }
        lemma_laid_out_is_aligned(parent.base_address, subnets);
    }
}

/// The requests that can be sized, and the subnets they ask for, are the
/// same however the requests are arranged.
pub proof fn lemma_sized_all_of_rearranged(requests: Seq<RequestView>, rearranged: Seq<RequestView>)
    requires
        requests.to_multiset() == rearranged.to_multiset(),
    ensures
        all_sizable(requests) == all_sizable(rearranged),
        sized_all(requests).to_multiset() == sized_all(rearranged).to_multiset(),
    decreases requests.len(),
{
    requests.to_multiset_ensures();
    rearranged.to_multiset_ensures();
    if requests.len() == 0 {
        assert(sized_all(requests) =~= sized_all(rearranged));
    } else {
        let moved = requests.last();
        assert(requests.contains(moved));
        assert(requests.to_multiset().count(moved) > 0);
        assert(rearranged.contains(moved));
        let at = choose|i: int| 0 <= i < rearranged.len() && rearranged[i] == moved;
        let fewer = requests.drop_last();
        let others = rearranged.remove(at);
        assert(fewer =~= requests.remove(requests.len() - 1));
        lemma_sized_all_of_rearranged(fewer, others);
        assert(sized_all(requests) =~= sized_all(fewer).push(sized(moved)));
        assert(sized_all(rearranged) =~= sized_all(others).insert(at, sized(moved)));
        sized_all(fewer).to_multiset_ensures();
        to_multiset_insert(sized_all(others), at, sized(moved));
        assert(all_sizable(requests) == (all_sizable(fewer) && is_sizable(moved))) by {
            if all_sizable(fewer) && is_sizable(moved) {
                assert forall|i: int| 0 <= i < requests.len() implies is_sizable(
                    #[trigger] requests[i],
                ) by {
                    if i < fewer.len() {
                        assert(requests[i] == fewer[i]);
                    }
                }
            }
            if all_sizable(requests) {
                assert forall|i: int| 0 <= i < fewer.len() implies is_sizable(
                    #[trigger] fewer[i],
                ) by {
                    assert(fewer[i] == requests[i]);
                }
            }
        }
        assert(all_sizable(rearranged) == (all_sizable(others) && is_sizable(moved))) by {
            if all_sizable(others) && is_sizable(moved) {
                assert forall|i: int| 0 <= i < rearranged.len() implies is_sizable(
                    #[trigger] rearranged[i],
                ) by {
                    if i < at {
                        assert(rearranged[i] == others[i]);
                    } else if i > at {
                        assert(rearranged[i] == others[i - 1]);
                    }
                }
            }
            if all_sizable(rearranged) {
                assert forall|i: int| 0 <= i < others.len() implies is_sizable(
                    #[trigger] others[i],
                ) by {
                    if i < at {
                        assert(others[i] == rearranged[i]);
                    } else {
                        assert(others[i] == rearranged[i + 1]);
                    }
                }
            }
        }
    }
}

/// An allocation does not depend on the order in which the requests were
/// given.
pub proof fn lemma_allocation_ignores_request_order(
    parent: NetworkView,
    requests: Seq<RequestView>,
    rearranged: Seq<RequestView>,
    direction: TieBreak,
)
    requires
        requests.to_multiset() == rearranged.to_multiset(),
    ensures
        allocation(parent, requests, direction) == allocation(parent, rearranged, direction),
{
    lemma_sized_all_of_rearranged(requests, rearranged);
    lemma_ordered_ignores_given_order(sized_all(requests), sized_all(rearranged), direction);
}

/// Two allocations from inputs that say the same come to the same: the
/// same error, or reports that say the same in every field.
pub proof fn lemma_allocation_is_repeatable(
    parent: ParentNetwork,
    again_parent: ParentNetwork,
    requests: Seq<SubnetRequest>,
    again_requests: Seq<SubnetRequest>,
    direction: TieBreak,
    first: Result<AllocationReport, AllocationError>,
    second: Result<AllocationReport, AllocationError>,
)
    requires
        parent@ == again_parent@,
        request_views(requests) == request_views(again_requests),
        outcome_view(first) == allocation(parent@, request_views(requests), direction),
        outcome_view(second) == allocation(
            again_parent@,
            request_views(again_requests),
            direction,
        ),
    ensures
        outcome_view(first) == outcome_view(second),
        first matches Ok(report) ==> second matches Ok(again) && report@ == again@,
        first matches Err(e) ==> second == Err::<AllocationReport, AllocationError>(e),
{
}

/// Sizes the subnet of every request, in the order of the requests.
///
/// Fails with `OutOfRange` exactly when some request cannot be sized.
pub fn size_requests(requests: &Vec<SubnetRequest>) -> (result: Result<
    Vec<Subnet>,
    AllocationError,
>)
    ensures
        match result {
            Ok(subnets) => all_sizable(request_views(requests@)) && subnet_views(subnets@)
                == sized_all(request_views(requests@)),
            Err(e) => e == AllocationError::OutOfRange && !all_sizable(request_views(requests@)),
        },
{
    let ghost views = request_views(requests@);
    let mut subnets: Vec<Subnet> = Vec::new();
    let mut done: usize = 0;
    while done < requests.len()
        invariant
            done <= requests.len(),
            views == request_views(requests@),
            subnets.len() == done,
            forall|i: int| 0 <= i < done ==> is_sizable(#[trigger] views[i]),
            forall|i: int| 0 <= i < done ==> (#[trigger] subnets[i])@ == sized(views[i]),
        decreases requests.len() - done,
    {
        match Subnet::from_request(&requests[done]) {
            Ok(subnet) => subnets.push(subnet),
            Err(e) => {
                assert(!is_sizable(views[done as int]));
                return Err(e);
            },
        }
        done += 1;
    }
    assert(subnet_views(subnets@) =~= sized_all(views));
    Ok(subnets)
}

/// Holds the addresses used against the addresses available.
///
/// Fails with `AddressSpaceExhausted` exactly when more are used than are
/// available.
pub fn check_capacity(total_used: u64, available: u64) -> (result: Result<(), AllocationError>)
    ensures
        result is Ok <==> total_used <= available,
        result matches Err(e) ==> e == AllocationError::AddressSpaceExhausted,
{
    if total_used > available {
        Err(AllocationError::AddressSpaceExhausted)
    } else {
        Ok(())
    }
}

/// Partitions the parent network among the requests.
///
/// Each request gets the smallest block that holds its hosts. The blocks
/// are placed from the parent's base address on, larger ones first and
/// blocks of one size by name in the given direction.
pub fn allocate(
    parent: &ParentNetwork,
    requests: &Vec<SubnetRequest>,
    direction: TieBreak,
) -> (result: Result<AllocationReport, AllocationError>)
    ensures
        outcome_view(result) == allocation(parent@, request_views(requests@), direction),
{
    let subnets = match size_requests(requests) {
        Ok(subnets) => subnets,
        Err(e) => {
            return Err(e);
        },
    };
    let sorted = order_subnets(&subnets, direction);
    let base_address = parent.base_address();
    let available = parent.available_addresses();
    match lay_out(base_address, &sorted) {
        None => Err(AllocationError::AddressSpaceExhausted),
        Some(layout) => {
            let total_used = layout.end - base_address as u64;
            match check_capacity(total_used, available) {
                Err(e) => Err(e),
                Ok(()) => Ok(
                    AllocationReport {
                        parent_base_address: base_address,
                        parent_broadcast_address: parent.broadcast_address(),
                        subnets: layout.subnets,
                        total_available: available,
                        total_used,
                    },
                ),
            }
        },
    }
}

} // verus!
