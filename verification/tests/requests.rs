use vlsm::requests::{parse_host_count, requests_from_captures, REQUEST_PATTERN};
use vlsm::{allocate, parse_requests, ParentNetwork, RequestError, SubnetRequest, TieBreak};

fn request(name: &str, hosts: u32) -> SubnetRequest {
    SubnetRequest { name: name.to_string(), min_usable_hosts: hosts }
}

#[test]
fn a_list_of_three_requests_is_read() {
    assert_eq!(
        parse_requests("(A,12), (B,34), (C,56)"),
        Ok(vec![request("A", 12), request("B", 34), request("C", 56)])
    );
}

#[test]
fn what_stands_between_requests_is_passed_over() {
    assert_eq!(
        parse_requests("x(A,12)(B,34) and then ( C , 5 ) (D,7"),
        Ok(vec![request("A", 12), request("B", 34)])
    );
    assert_eq!(parse_requests(""), Ok(Vec::new()));
    assert_eq!(parse_requests("no requests here"), Ok(Vec::new()));
}

#[test]
fn a_name_is_one_word_character() {
    assert_eq!(parse_requests("(AB,12)"), Ok(Vec::new()));
    assert_eq!(parse_requests("(-,12)"), Ok(Vec::new()));
    assert_eq!(parse_requests("(_,12)"), Ok(vec![request("_", 12)]));
    assert_eq!(parse_requests("(7,12)"), Ok(vec![request("7", 12)]));
    assert_eq!(parse_requests("(\u{e9},12)"), Ok(vec![request("\u{e9}", 12)]));
}

#[test]
fn a_count_may_have_leading_zeros_and_reach_the_largest_number() {
    assert_eq!(parse_requests("(A,0)"), Ok(vec![request("A", 0)]));
    assert_eq!(parse_requests("(A,007)"), Ok(vec![request("A", 7)]));
    assert_eq!(parse_requests("(A,4294967295)"), Ok(vec![request("A", u32::MAX)]));
    assert_eq!(parse_requests("(A,00004294967295)"), Ok(vec![request("A", u32::MAX)]));
}

#[test]
fn a_count_beyond_32_bits_is_out_of_range() {
    assert_eq!(parse_requests("(A,4294967296)"), Err(RequestError::CountOutOfRange));
    assert_eq!(
        parse_requests("(A,1) (B,99999999999999999999999999999999) (C,2)"),
        Err(RequestError::CountOutOfRange)
    );
}

#[test]
fn a_count_of_other_digits_is_invalid() {
    assert_eq!(parse_requests("(A,\u{661}\u{662})"), Err(RequestError::InvalidCount));
    assert_eq!(parse_requests("(A,1\u{663})"), Err(RequestError::InvalidCount));
}

#[test]
fn the_first_bad_count_decides_the_error() {
    assert_eq!(
        parse_requests("(A,4294967296) (B,\u{661})"),
        Err(RequestError::CountOutOfRange)
    );
    assert_eq!(
        parse_requests("(B,\u{661}) (A,4294967296)"),
        Err(RequestError::InvalidCount)
    );
}

#[test]
fn the_pattern_is_a_name_and_a_count_in_brackets() {
    assert_eq!(REQUEST_PATTERN, "\\((\\w),(\\d+)\\)");
}

#[test]
fn host_counts_are_decimal_numbers() {
    assert_eq!(parse_host_count("0"), Ok(0));
    assert_eq!(parse_host_count("12"), Ok(12));
    assert_eq!(parse_host_count("012"), Ok(12));
    assert_eq!(parse_host_count("4294967295"), Ok(u32::MAX));
    assert_eq!(parse_host_count("4294967296"), Err(RequestError::CountOutOfRange));
    assert_eq!(parse_host_count("42949672950"), Err(RequestError::CountOutOfRange));
    assert_eq!(
        parse_host_count("340282366920938463463374607431768211456"),
        Err(RequestError::CountOutOfRange)
    );
}

#[test]
fn host_counts_hold_nothing_but_digits() {
    assert_eq!(parse_host_count(""), Err(RequestError::InvalidCount));
    assert_eq!(parse_host_count("+12"), Err(RequestError::InvalidCount));
    assert_eq!(parse_host_count("-1"), Err(RequestError::InvalidCount));
    assert_eq!(parse_host_count("1 2"), Err(RequestError::InvalidCount));
    assert_eq!(parse_host_count("12a"), Err(RequestError::InvalidCount));
    assert_eq!(parse_host_count("0x10"), Err(RequestError::InvalidCount));
    assert_eq!(parse_host_count("/"), Err(RequestError::InvalidCount));
    assert_eq!(parse_host_count(":"), Err(RequestError::InvalidCount));
    assert_eq!(parse_host_count("\u{663}"), Err(RequestError::InvalidCount));
    assert_eq!(parse_host_count("99999999999999999999x"), Err(RequestError::InvalidCount));
}

#[test]
fn captured_pairs_become_requests() {
    let pairs = vec![
        ("A".to_string(), "12".to_string()),
        ("long name".to_string(), "34".to_string()),
    ];
    assert_eq!(
        requests_from_captures(&pairs),
        Ok(vec![request("A", 12), request("long name", 34)])
    );
    assert_eq!(requests_from_captures(&Vec::new()), Ok(Vec::new()));
    let bad = vec![
        ("A".to_string(), "12".to_string()),
        ("B".to_string(), "".to_string()),
        ("C".to_string(), "4294967296".to_string()),
    ];
    assert_eq!(requests_from_captures(&bad), Err(RequestError::InvalidCount));
}

#[test]
fn a_request_list_is_read_and_allocated() {
    let list = parse_requests("(A,12), (B,34), (C,56)").unwrap();
    let report =
        allocate(&ParentNetwork::new(0x0C22_384E, 24), &list, TieBreak::AscendingByName).unwrap();
    let names: Vec<&str> = report.subnets.iter().map(|s| s.name.as_str()).collect();
    assert_eq!(names, ["B", "C", "A"]);
    assert_eq!(report.total_used, 144);
}
