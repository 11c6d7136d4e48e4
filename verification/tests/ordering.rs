use vlsm::ordering::{name_at_or_before, order_subnets};
use vlsm::{Subnet, TieBreak};

fn subnets(list: &[(&str, u32)]) -> Vec<Subnet> {
    list.iter().map(|(name, hosts)| Subnet::new(name, *hosts).unwrap()).collect()
}

fn names(list: &[Subnet]) -> Vec<String> {
    list.iter().map(|s| s.name().to_string()).collect()
}

#[test]
fn names_compare_character_by_character() {
    assert!(name_at_or_before("A", "B"));
    assert!(!name_at_or_before("B", "A"));
    assert!(name_at_or_before("A", "A"));
    assert!(name_at_or_before("", "A"));
    assert!(!name_at_or_before("A", ""));
    assert!(name_at_or_before("", ""));
    assert!(name_at_or_before("A", "AB"));
    assert!(!name_at_or_before("AB", "A"));
    assert!(name_at_or_before("AB", "B"));
    assert!(name_at_or_before("ABC", "ABD"));
    assert!(!name_at_or_before("ABD", "ABC"));
}

#[test]
fn names_compare_by_code_point() {
    assert!(name_at_or_before("Z", "a"));
    assert!(!name_at_or_before("a", "Z"));
    assert!(name_at_or_before("9", "A"));
    assert!(name_at_or_before("z", "\u{e9}"));
    assert!(!name_at_or_before("\u{e9}", "z"));
    assert!(name_at_or_before("\u{e9}", "\u{4e2d}"));
    assert!(name_at_or_before("\u{ffff}", "\u{10000}"));
    assert!(!name_at_or_before("\u{10000}", "\u{ffff}"));
}

#[test]
fn a_larger_subnet_goes_before_a_smaller_one_whatever_the_names() {
    let large = Subnet::new("Z", 100).unwrap();
    let small = Subnet::new("A", 10).unwrap();
    for direction in [TieBreak::AscendingByName, TieBreak::DescendingByName] {
        assert!(large.goes_before(&small, direction));
        assert!(!small.goes_before(&large, direction));
    }
}

#[test]
fn subnets_of_one_size_go_by_name_in_the_chosen_direction() {
    let b = Subnet::new("B", 34).unwrap();
    let c = Subnet::new("C", 56).unwrap();
    assert!(b.goes_before(&c, TieBreak::AscendingByName));
    assert!(!c.goes_before(&b, TieBreak::AscendingByName));
    assert!(c.goes_before(&b, TieBreak::DescendingByName));
    assert!(!b.goes_before(&c, TieBreak::DescendingByName));
}

#[test]
fn a_subnet_goes_before_its_equal() {
    let one = Subnet::new("B", 34).unwrap();
    let other = Subnet::new("B", 40).unwrap();
    for direction in [TieBreak::AscendingByName, TieBreak::DescendingByName] {
        assert!(one.goes_before(&other, direction));
        assert!(other.goes_before(&one, direction));
    }
}

#[test]
fn order_is_by_size_then_by_name_ascending() {
    let sorted = order_subnets(&subnets(&[("A", 12), ("B", 34), ("C", 56)]), TieBreak::AscendingByName);
    assert_eq!(names(&sorted), ["B", "C", "A"]);
    assert_eq!(sorted.iter().map(|s| s.size()).collect::<Vec<u32>>(), [64, 64, 16]);
}

#[test]
fn order_is_by_size_then_by_name_descending() {
    let sorted = order_subnets(&subnets(&[("A", 12), ("B", 34), ("C", 56)]), TieBreak::DescendingByName);
    assert_eq!(names(&sorted), ["C", "B", "A"]);
    assert_eq!(sorted.iter().map(|s| s.size()).collect::<Vec<u32>>(), [64, 64, 16]);
}

#[test]
fn order_does_not_depend_on_the_order_given() {
    let forwards = subnets(&[("A", 12), ("B", 34), ("C", 56), ("D", 2), ("E", 200)]);
    let backwards = subnets(&[("E", 200), ("D", 2), ("C", 56), ("B", 34), ("A", 12)]);
    let mixed = subnets(&[("C", 56), ("E", 200), ("A", 12), ("D", 2), ("B", 34)]);
    for direction in [TieBreak::AscendingByName, TieBreak::DescendingByName] {
        let sorted = order_subnets(&forwards, direction);
        assert_eq!(order_subnets(&backwards, direction), sorted);
        assert_eq!(order_subnets(&mixed, direction), sorted);
    }
    assert_eq!(names(&order_subnets(&mixed, TieBreak::AscendingByName)), ["E", "B", "C", "A", "D"]);
    assert_eq!(names(&order_subnets(&mixed, TieBreak::DescendingByName)), ["E", "C", "B", "A", "D"]);
}

#[test]
fn order_keeps_subnets_of_the_same_name_and_size() {
    let sorted = order_subnets(&subnets(&[("A", 12), ("B", 100), ("A", 13), ("A", 12)]), TieBreak::AscendingByName);
    assert_eq!(names(&sorted), ["B", "A", "A", "A"]);
    assert_eq!(sorted.iter().map(|s| s.size()).collect::<Vec<u32>>(), [128, 16, 16, 16]);
}

#[test]
fn order_of_nothing_is_nothing() {
    assert!(order_subnets(&Vec::new(), TieBreak::AscendingByName).is_empty());
    assert!(order_subnets(&Vec::new(), TieBreak::DescendingByName).is_empty());
}

#[test]
fn order_puts_every_pair_in_order() {
    let given = subnets(&[
        ("m", 5), ("b", 300), ("z", 5), ("a", 5), ("q", 70), ("k", 0), ("c", 300), ("y", 69),
        ("x", 1), ("a", 6), ("B", 300), ("bb", 300), ("", 300),
    ]);
    for direction in [TieBreak::AscendingByName, TieBreak::DescendingByName] {
        let sorted = order_subnets(&given, direction);
        assert_eq!(sorted.len(), given.len());
        for i in 0..sorted.len() {
            for j in i + 1..sorted.len() {
                assert!(sorted[i].size() >= sorted[j].size());
                assert!(sorted[i].goes_before(&sorted[j], direction));
                if sorted[i].size() == sorted[j].size() {
                    match direction {
                        TieBreak::AscendingByName => assert!(sorted[i].name() <= sorted[j].name()),
                        TieBreak::DescendingByName => assert!(sorted[i].name() >= sorted[j].name()),
                    }
                }
            }
        }
        for subnet in &given {
            let wanted = given.iter().filter(|s| *s == subnet).count();
            assert_eq!(sorted.iter().filter(|s| *s == subnet).count(), wanted);
        }
    }
}

#[test]
fn only_the_ascending_token_names_the_ascending_direction() {
    assert_eq!(TieBreak::from_token("A-Z"), TieBreak::AscendingByName);
    assert_eq!(TieBreak::from_token("Z-A"), TieBreak::DescendingByName);
    assert_eq!(TieBreak::from_token("a-z"), TieBreak::DescendingByName);
    assert_eq!(TieBreak::from_token("A-Z "), TieBreak::DescendingByName);
    assert_eq!(TieBreak::from_token("A-"), TieBreak::DescendingByName);
    assert_eq!(TieBreak::from_token(""), TieBreak::DescendingByName);
    assert_eq!(TieBreak::from_token("A\u{2013}Z"), TieBreak::DescendingByName);
}
