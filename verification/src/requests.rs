//! Request lists: the text form of the requests, as in
//! `(A,12), (B,34), (C,56)`.

use regex::Regex;
use vstd::prelude::*;
use vstd::string::*;
use crate::subnet::{RequestView, SubnetRequest};

verus! {

/// The pattern of one request in a list: in round brackets a name of one
/// word character, a comma and a count of one or more digits.
pub const REQUEST_PATTERN: &'static str = r"\((\w),(\d+)\)";

/// Why a request list could not be read.
#[derive(Clone, Copy, Debug, PartialEq, Eq, Structural)]
pub enum RequestError {
    /// A host count holds a digit that is not one of `0` to `9`.
    InvalidCount,
    /// A host count is too large for 32 bits.
    CountOutOfRange,
}

/// What the two groups of `pattern` capture in `text`, match by match from
/// left to right, as the `regex` crate finds the matches.
pub uninterp spec fn pattern_captures(pattern: Seq<char>, text: Seq<char>) -> Seq<
    (Seq<char>, Seq<char>),
>;

/// What each of a sequence of captured pairs holds.
pub open spec fn pair_views(pairs: Seq<(String, String)>) -> Seq<(Seq<char>, Seq<char>)> {
    pairs.map_values(|p: (String, String)| (p.0@, p.1@))
}

/// Searches `text` for the request pattern with `regex::Regex::new`,
/// `Regex::captures_iter` and `Captures::extract`, and hands back each
/// match's two groups as owned strings.
///
/// Trusted: that the result is `pattern_captures` of the two arguments,
/// which is to say no more than that the search depends on the pattern and
/// the text alone. The pattern is held to `REQUEST_PATTERN`, which compiles
/// and has two groups that take part in every match, so that neither
/// `unwrap` nor `extract` can fail.
#[verifier::external_body]
fn capture_pairs(pattern: &str, text: &str) -> (pairs: Vec<(String, String)>)
    requires
        pattern@ == REQUEST_PATTERN@,
    ensures
        pair_views(pairs@) == pattern_captures(pattern@, text@),
{
    let mut pairs = Vec::new();
    for found in Regex::new(pattern).unwrap().captures_iter(text) {
        let (_, [name, count]) = found.extract::<2>();
        pairs.push((name.to_string(), count.to_string()));
    }
    pairs
}

/// Whether a character is one of the digits `0` to `9`.
pub open spec fn is_digit(c: char) -> bool {
    '0' <= c <= '9'
}

/// Whether a text is a decimal number: one or more digits `0` to `9`.
pub open spec fn is_decimal(text: Seq<char>) -> bool {
    text.len() > 0 && forall|i: int| 0 <= i < text.len() ==> is_digit(#[trigger] text[i])
}

/// The number that a sequence of digits writes in base ten.
pub open spec fn decimal_value(digits: Seq<char>) -> nat
    decreases digits.len(),
{
    if digits.len() == 0 {
        0
    } else {
        10 * decimal_value(digits.drop_last()) + (digits.last() as nat - '0' as nat) as nat
    }
}

/// The host count that a text writes, or why it writes none.
pub open spec fn host_count_of(text: Seq<char>) -> Result<nat, RequestError> {
    if !is_decimal(text) {
        Err(RequestError::InvalidCount)
    } else if decimal_value(text) > u32::MAX {
        Err(RequestError::CountOutOfRange)
    } else {
        Ok(decimal_value(text))
    }
}

/// The requests that captured pairs of name and count make, in their
/// order, or the error of the first pair whose count is no host count.
pub open spec fn requests_of(pairs: Seq<(Seq<char>, Seq<char>)>) -> Result<
    Seq<RequestView>,
    RequestError,
>
    decreases pairs.len(),
{
    if pairs.len() == 0 {
        Ok(Seq::empty())
    } else {
        match requests_of(pairs.drop_last()) {
            Err(e) => Err(e),
            Ok(before) => match host_count_of(pairs.last().1) {
                Err(e) => Err(e),
                Ok(count) => Ok(
                    before.push(RequestView { name: pairs.last().0, min_usable_hosts: count }),
                ),
            },
        }
    }
}

/// What the result of reading requests says.
pub open spec fn requests_view(result: Result<Vec<SubnetRequest>, RequestError>) -> Result<
    Seq<RequestView>,
    RequestError,
> {
    match result {
        Ok(requests) => Ok(requests@.map_values(|r: SubnetRequest| r@)),
        Err(e) => Err(e),
    }
}

/// Reading the digits one more to the right never makes the number smaller.
proof fn lemma_decimal_value_grows(digits: Seq<char>, count: int)
    requires
        0 <= count < digits.len(),
        is_digit(digits[count]),
    ensures
        decimal_value(digits.take(count + 1)) == 10 * decimal_value(digits.take(count)) + (
        digits[count] as nat - '0' as nat),
        decimal_value(digits.take(count + 1)) >= decimal_value(digits.take(count)),
{
    assert(digits.take(count + 1).drop_last() =~= digits.take(count));
}

/// Reads a host count: a decimal number that 32 bits can hold.
pub fn parse_host_count(text: &str) -> (result: Result<u32, RequestError>)
    ensures
        match result {
            Ok(count) => host_count_of(text@) == Ok::<nat, RequestError>(count as nat),
            Err(e) => host_count_of(text@) == Err::<nat, RequestError>(e),
        },
{
    let length = text.unicode_len();
    if length == 0 {
        return Err(RequestError::InvalidCount);
    }
    let mut value: u64 = 0;
    let mut too_large = false;
    let mut at: usize = 0;
    while at < length
        invariant
            at <= length == text@.len(),
            forall|i: int| 0 <= i < at ==> is_digit(#[trigger] text@[i]),
            !too_large ==> value == decimal_value(text@.take(at as int)) && value <= u32::MAX,
            too_large ==> decimal_value(text@.take(at as int)) > u32::MAX,
        decreases length - at,
    {
        let c = text.get_char(at);
        if c < '0' || c > '9' {
            return Err(RequestError::InvalidCount);
        }
        proof {
            lemma_decimal_value_grows(text@, at as int);
        }
        if !too_large {
            value = value * 10 + (c as u32 - '0' as u32) as u64;
            too_large = value > u32::MAX as u64;
        }
        at += 1;
    }
    assert(text@.take(at as int) =~= text@);
    if too_large {
        Err(RequestError::CountOutOfRange)
    } else {
        Ok(value as u32)
    }
}

/// Makes requests of captured pairs of name and count.
///
/// Fails with the error of the first pair whose count is no host count.
pub fn requests_from_captures(pairs: &Vec<(String, String)>) -> (result: Result<
    Vec<SubnetRequest>,
    RequestError,
>)
    ensures
        requests_view(result) == requests_of(pair_views(pairs@)),
{
    let ghost views = pair_views(pairs@);
    let mut requests: Vec<SubnetRequest> = Vec::new();
    let mut done: usize = 0;
    assert(views.take(0) =~= Seq::empty());
    assert(requests@.map_values(|r: SubnetRequest| r@) =~= Seq::empty());
    while done < pairs.len()
        invariant
            done <= pairs.len(),
            views == pair_views(pairs@),
            requests_of(views.take(done as int)) == Ok::<Seq<RequestView>, RequestError>(
                requests@.map_values(|r: SubnetRequest| r@),
            ),
        decreases pairs.len() - done,
    {
        let ghost before = requests@.map_values(|r: SubnetRequest| r@);
        proof {
            assert(views.take(done + 1).drop_last() =~= views.take(done as int));
        }
        match parse_host_count(pairs[done].1.as_str()) {
            Err(e) => {
                proof {
                    lemma_requests_of_fails(views, done + 1);
                }
                return Err(e);
            },
            Ok(count) => {
                let request = SubnetRequest {
                    name: pairs[done].0.clone(),
                    min_usable_hosts: count,
                };
                requests.push(request);
                assert(requests@.map_values(|r: SubnetRequest| r@) =~= before.push(request@));
            },
        }
        done += 1;
    }
    assert(views.take(done as int) =~= views);
    Ok(requests)
}

/// Once the first pairs fail, so do all of them, with the same error.
proof fn lemma_requests_of_fails(pairs: Seq<(Seq<char>, Seq<char>)>, count: int)
    requires
        0 <= count <= pairs.len(),
        requests_of(pairs.take(count)) is Err,
    ensures
        requests_of(pairs) == requests_of(pairs.take(count)),
    decreases pairs.len() - count,
{
    if count < pairs.len() {
        assert(pairs.take(count + 1).drop_last() =~= pairs.take(count));
        lemma_requests_of_fails(pairs, count + 1);
    } else {
        assert(pairs.take(count) =~= pairs);
    }
}

/// Reads a request list: every place in `text` that `REQUEST_PATTERN`
/// matches is a request, and whatever stands between the matches is passed
/// over.
///
/// Fails with the error of the first match whose count is no host count.
pub fn parse_requests(text: &str) -> (result: Result<Vec<SubnetRequest>, RequestError>)
    ensures
        requests_view(result) == requests_of(pattern_captures(REQUEST_PATTERN@, text@)),
{
    let pairs = capture_pairs(REQUEST_PATTERN, text);
    requests_from_captures(&pairs)
}

} // verus!
