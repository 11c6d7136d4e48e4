//! Subnet ordering: larger blocks first, and among blocks of one size by
//! name, forwards or backwards as the caller chooses.

use vstd::prelude::*;
use vstd::relations::{sorted_by, total_ordering};
use vstd::seq_lib::*;
use vstd::string::*;
use crate::subnet::{Subnet, SubnetView};

verus! {

/// How subnets of equal size are told apart: by name, ascending or
/// descending.
#[derive(Clone, Copy, Debug, PartialEq, Eq, Structural)]
pub enum TieBreak {
    AscendingByName,
    DescendingByName,
}

impl TieBreak {
    /// The direction that a token names: `A-Z` names the ascending one, and
    /// every other token the descending one.
    pub fn from_token(token: &str) -> (direction: TieBreak)
        ensures
            direction == if token@ == "A-Z"@ {
                TieBreak::AscendingByName
            } else {
                TieBreak::DescendingByName
            },
    {
        proof {
            reveal_strlit("A-Z");
        }
        if token.unicode_len() == 3 && token.get_char(0) == 'A' && token.get_char(1) == '-'
            && token.get_char(2) == 'Z' {
            assert(token@ =~= "A-Z"@);
            TieBreak::AscendingByName
        } else {
            TieBreak::DescendingByName
        }
    }
}

/// Lexicographic order on what is left of two names from position `from`
/// on: `a` is at or before `b` if it ends first, or if at the first place
/// where the two differ `a` has the smaller character.
pub open spec fn name_le_from(a: Seq<char>, b: Seq<char>, from: int) -> bool
    decreases a.len() - from,
{
    if from >= a.len() {
        true
    } else if from >= b.len() {
        false
    } else if a[from] != b[from] {
        a[from] < b[from]
    } else {
        name_le_from(a, b, from + 1)
    }
}

/// Lexicographic order on names, character by character: whether `a` is
/// `b` or comes before it.
pub open spec fn name_le(a: Seq<char>, b: Seq<char>) -> bool {
    name_le_from(a, b, 0)
}

/// Whether name `a` may stand before name `b` under the chosen direction.
pub open spec fn names_in_order(a: Seq<char>, b: Seq<char>, direction: TieBreak) -> bool {
    match direction {
        TieBreak::AscendingByName => name_le(a, b),
        TieBreak::DescendingByName => name_le(b, a),
    }
}

/// Whether subnet `a` may stand before subnet `b`: it may if it is larger,
/// or of the same size and its name in order with that of `b`.
pub open spec fn in_order(a: SubnetView, b: SubnetView, direction: TieBreak) -> bool {
    a.size > b.size || (a.size == b.size && names_in_order(a.name, b.name, direction))
}

/// The order on subnets under a direction, as a relation.
pub open spec fn subnet_order(direction: TieBreak) -> spec_fn(SubnetView, SubnetView) -> bool {
    |a: SubnetView, b: SubnetView| in_order(a, b, direction)
}

/// The subnets in allocation order: the arrangement of `subnets` that is
/// sorted by `subnet_order`.
pub open spec fn ordered(subnets: Seq<SubnetView>, direction: TieBreak) -> Seq<SubnetView> {
    subnets.sort_by(subnet_order(direction))
}

/// What each of a sequence of subnets is.
pub open spec fn subnet_views(subnets: Seq<Subnet>) -> Seq<SubnetView> {
    subnets.map_values(|s: Subnet| s@)
}

proof fn lemma_name_le_reflexive(a: Seq<char>, from: int)
    requires
        0 <= from,
    ensures
        name_le_from(a, a, from),
    decreases a.len() - from,
{
    if from < a.len() {
        lemma_name_le_reflexive(a, from + 1);
    }
}

proof fn lemma_name_le_total(a: Seq<char>, b: Seq<char>, from: int)
    requires
        0 <= from,
    ensures
        name_le_from(a, b, from) || name_le_from(b, a, from),
    decreases a.len() - from,
{
    if from < a.len() && from < b.len() && a[from] == b[from] {
        lemma_name_le_total(a, b, from + 1);
    }
}

proof fn lemma_name_le_transitive(a: Seq<char>, b: Seq<char>, c: Seq<char>, from: int)
    requires
        0 <= from,
        name_le_from(a, b, from),
        name_le_from(b, c, from),
    ensures
        name_le_from(a, c, from),
    decreases a.len() - from,
{
    if from < a.len() && a[from] == b[from] && b[from] == c[from] {
        lemma_name_le_transitive(a, b, c, from + 1);
    }
}

proof fn lemma_name_le_antisymmetric(a: Seq<char>, b: Seq<char>, from: int)
    requires
        0 <= from <= a.len(),
        from <= b.len(),
        name_le_from(a, b, from),
        name_le_from(b, a, from),
    ensures
        a.len() == b.len(),
        forall|i: int| from <= i < a.len() ==> a[i] == b[i],
    decreases a.len() - from,
{
    if from < a.len() {
        lemma_name_le_antisymmetric(a, b, from + 1);
    }
}

/// Under either direction the order on subnets is a total order: any two
/// subnets are comparable, and two that may each stand before the other
/// have the same name and size.
pub proof fn lemma_subnet_order_is_total(direction: TieBreak)
    ensures
        total_ordering(subnet_order(direction)),
{
    let r = subnet_order(direction);
    assert forall|x: SubnetView| #[trigger] r(x, x) by {
        lemma_name_le_reflexive(x.name, 0);
    }
    assert forall|x: SubnetView, y: SubnetView| #[trigger] r(x, y) && #[trigger] r(y, x) implies x
        == y by {
        lemma_name_le_antisymmetric(x.name, y.name, 0);
        assert(x.name =~= y.name);
    }
    assert forall|x: SubnetView, y: SubnetView, z: SubnetView| #[trigger]
        r(x, y) && #[trigger] r(y, z) implies r(x, z) by {
        if x.size == y.size && y.size == z.size {
            match direction {
                TieBreak::AscendingByName => lemma_name_le_transitive(x.name, y.name, z.name, 0),
                TieBreak::DescendingByName => lemma_name_le_transitive(z.name, y.name, x.name, 0),
            }
        }
    }
    assert forall|x: SubnetView, y: SubnetView| #[trigger] r(x, y) || #[trigger] r(y, x) by {
        lemma_name_le_total(x.name, y.name, 0);
    }
}

/// Allocation order keeps every subnet, each as often as it was given, and
/// puts larger blocks before smaller ones and blocks of one size in the
/// order of their names under the chosen direction: of two such blocks with
/// different names the one whose name comes first stands first.
pub proof fn lemma_ordered_is_sorted(subnets: Seq<SubnetView>, direction: TieBreak)
    ensures
        ordered(subnets, direction).to_multiset() == subnets.to_multiset(),
        ordered(subnets, direction).len() == subnets.len(),
        forall|i: int, j: int|
            0 <= i < j < subnets.len() ==> in_order(
                #[trigger] ordered(subnets, direction)[i],
                #[trigger] ordered(subnets, direction)[j],
                direction,
            ),
        forall|i: int, j: int|
            0 <= i < j < subnets.len() ==> (#[trigger] ordered(subnets, direction)[i]).size >= (
            #[trigger] ordered(subnets, direction)[j]).size,
        forall|i: int, j: int|
            0 <= i < j < subnets.len() && (#[trigger] ordered(subnets, direction)[i]).size == (
            #[trigger] ordered(subnets, direction)[j]).size ==> names_in_order(
                ordered(subnets, direction)[i].name,
                ordered(subnets, direction)[j].name,
                direction,
            ) && (ordered(subnets, direction)[i].name != ordered(subnets, direction)[j].name
                ==> !names_in_order(
                ordered(subnets, direction)[j].name,
                ordered(subnets, direction)[i].name,
                direction,
            )),
{
    let sorted = ordered(subnets, direction);
    lemma_subnet_order_is_total(direction);
    subnets.lemma_sort_by_ensures(subnet_order(direction));
    subnets.to_multiset_ensures();
    sorted.to_multiset_ensures();
    assert forall|i: int, j: int| 0 <= i < j < subnets.len() implies in_order(
        #[trigger] sorted[i],
        #[trigger] sorted[j],
        direction,
    ) by {
        assert(subnet_order(direction)(sorted[i], sorted[j]));
    }
    assert forall|i: int, j: int|
        0 <= i < j < subnets.len() && (#[trigger] sorted[i]).size == (#[trigger] sorted[j]).size
            && sorted[i].name != sorted[j].name implies !names_in_order(
        sorted[j].name,
        sorted[i].name,
        direction,
    ) by {
        if names_in_order(sorted[j].name, sorted[i].name, direction) {
            assert(in_order(sorted[i], sorted[j], direction));
            lemma_name_le_antisymmetric(sorted[i].name, sorted[j].name, 0);
            assert(sorted[i].name =~= sorted[j].name);
        }
    }
}

/// Allocation order is the only arrangement of the subnets that is sorted:
/// whatever holds the same subnets, each as often, with every earlier one
/// in order before every later one, is `ordered(subnets, direction)`.
pub proof fn lemma_ordered_is_unique(
    subnets: Seq<SubnetView>,
    arranged: Seq<SubnetView>,
    direction: TieBreak,
)
    requires
        arranged.to_multiset() == subnets.to_multiset(),
        forall|i: int, j: int|
            0 <= i < j < arranged.len() ==> in_order(
                #[trigger] arranged[i],
                #[trigger] arranged[j],
                direction,
            ),
    ensures
        arranged == ordered(subnets, direction),
{
    lemma_subnet_order_is_total(direction);
    subnets.lemma_sort_by_ensures(subnet_order(direction));
    assert(sorted_by(arranged, subnet_order(direction)));
    lemma_sorted_unique(arranged, ordered(subnets, direction), subnet_order(direction));
}

/// Allocation order does not depend on the order in which the subnets
/// were given.
pub proof fn lemma_ordered_ignores_given_order(
    subnets: Seq<SubnetView>,
    rearranged: Seq<SubnetView>,
    direction: TieBreak,
)
    requires
        subnets.to_multiset() == rearranged.to_multiset(),
    ensures
        ordered(subnets, direction) == ordered(rearranged, direction),
{
    lemma_ordered_is_sorted(rearranged, direction);
    rearranged.to_multiset_ensures();
    ordered(rearranged, direction).to_multiset_ensures();
    lemma_ordered_is_unique(subnets, ordered(rearranged, direction), direction);
}

/// Whether name `a` is name `b` or comes before it, character by character.
pub fn name_at_or_before(a: &str, b: &str) -> (result: bool)
    ensures
        result == name_le(a@, b@),
{
    let a_len = a.unicode_len();
    let b_len = b.unicode_len();
    let mut at: usize = 0;
    while at < a_len && at < b_len
        invariant
            at <= a_len == a@.len(),
            at <= b_len == b@.len(),
            name_le(a@, b@) == name_le_from(a@, b@, at as int),
        decreases a_len - at,
    {
        let in_a = a.get_char(at);
        let in_b = b.get_char(at);
        if in_a != in_b {
            return in_a < in_b;
        }
        at += 1;
    }
    at >= a_len
}

impl Subnet {
    /// Whether this subnet may stand before `other` in allocation order.
    pub fn goes_before(&self, other: &Subnet, direction: TieBreak) -> (result: bool)
        ensures
            result == in_order(self@, other@, direction),
    {
        if self.size() != other.size() {
            self.size() > other.size()
        } else {
            match direction {
                TieBreak::AscendingByName => name_at_or_before(self.name(), other.name()),
                TieBreak::DescendingByName => name_at_or_before(other.name(), self.name()),
            }
        }
    }
}

/// Where `subnet` belongs in `sorted`: behind every subnet that may stand
/// before it.
fn insertion_point(sorted: &Vec<Subnet>, subnet: &Subnet, direction: TieBreak) -> (at: usize)
    requires
        sorted_by(subnet_views(sorted@), subnet_order(direction)),
    ensures
        at <= sorted.len(),
        sorted_by(subnet_views(sorted@).insert(at as int, subnet@), subnet_order(direction)),
{
    let mut at: usize = 0;
    while at < sorted.len() && sorted[at].goes_before(subnet, direction)
        invariant
            at <= sorted.len(),
            forall|i: int| 0 <= i < at ==> in_order(#[trigger] sorted[i]@, subnet@, direction),
        decreases sorted.len() - at,
    {
        at += 1;
    }
    proof {
        let views = subnet_views(sorted@);
        let r = subnet_order(direction);
        let grown = views.insert(at as int, subnet@);
        lemma_subnet_order_is_total(direction);
        assert forall|i: int, j: int| 0 <= i < j < grown.len() implies #[trigger] r(
            grown[i],
            grown[j],
        ) by {
            if j < at {
                assert(r(views[i], views[j]));
            } else if j == at {
                assert(in_order(sorted[i]@, subnet@, direction));
            } else if i < at {
                assert(r(views[i], views[j - 1]));
            } else if i == at {
                assert(!in_order(sorted[at as int]@, subnet@, direction));
                assert(r(subnet@, views[at as int]) || r(views[at as int], subnet@));
                if at < j - 1 {
                    assert(r(views[at as int], views[j - 1]));
                }
                assert(r(subnet@, views[at as int]) && r(views[at as int], views[j - 1]) ==> r(
                    subnet@,
                    views[j - 1],
                ));
            } else {
                assert(r(views[i - 1], views[j - 1]));
            }
        }
    }
    at
}

/// Puts subnets in allocation order.
pub fn order_subnets(subnets: &Vec<Subnet>, direction: TieBreak) -> (sorted: Vec<Subnet>)
    ensures
        subnet_views(sorted@) == ordered(subnet_views(subnets@), direction),
{
    let mut sorted: Vec<Subnet> = Vec::new();
    let mut done: usize = 0;
    assert(subnet_views(sorted@) =~= subnet_views(subnets@).take(0));
    while done < subnets.len()
        invariant
            done <= subnets.len(),
            sorted_by(subnet_views(sorted@), subnet_order(direction)),
            subnet_views(sorted@).to_multiset() == subnet_views(subnets@).take(
                done as int,
            ).to_multiset(),
        decreases subnets.len() - done,
    {
        let subnet = subnets[done].clone();
        let at = insertion_point(&sorted, &subnet, direction);
        proof {
            let before = subnet_views(sorted@);
            let taken = subnet_views(subnets@).take(done as int);
            to_multiset_insert(before, at as int, subnet@);
            taken.to_multiset_ensures();
            assert(subnet_views(subnets@).take(done + 1) =~= taken.push(subnet@));
            assert(subnet_views(sorted@.insert(at as int, subnet)) =~= before.insert(
                at as int,
                subnet@,
            ));
        }
        sorted.insert(at, subnet);
        done += 1;
    }
    proof {
        let given = subnet_views(subnets@);
        assert(given.take(done as int) =~= given);
        lemma_subnet_order_is_total(direction);
        given.lemma_sort_by_ensures(subnet_order(direction));
        lemma_sorted_unique(
            subnet_views(sorted@),
            ordered(given, direction),
            subnet_order(direction),
        );
    }
    sorted
}

} // verus!
