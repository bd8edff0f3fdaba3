//! The depth of a slice, read from its file name.
use vstd::prelude::*;

verus! {

/// A slice file's name holds its depth as the first run of digits.
pub const DEPTH_PATTERN: &'static str = "[^\\d]*(?<z>\\d+)[^\\d]*";

/// The name of the group of `DEPTH_PATTERN` that holds the depth.
pub const DEPTH_GROUP: &'static str = "z";

/// The text of group `group` in the leftmost match of regular expression
/// `pattern` in `hay`: `None` when the pattern does not compile, nothing
/// matches or the group takes no part in the match.
pub uninterp spec fn captured_group(pattern: Seq<char>, hay: Seq<char>, group: Seq<char>) -> Option<Seq<char>>;

/// Relies on `regex::Regex::new`, `Regex::captures` and `Captures::name`:
/// the text of a named group in the leftmost match, which depends on the
/// pattern, the text and the group's name alone.
#[verifier::external_body]
fn capture_group(pattern: &str, hay: &str, group: &str) -> (r: Option<Vec<char>>)
    ensures
        match r {
            Some(s) => captured_group(pattern@, hay@, group@) == Some(s@),
            None => captured_group(pattern@, hay@, group@) is None,
        },
{
    match regex::Regex::new(pattern) {
        Ok(re) => re.captures(hay).and_then(|c| c.name(group)).map(|m| m.as_str().chars().collect()),
        Err(_) => None,
    }
}

pub open spec fn is_digit(c: char) -> bool {
    '0' <= c <= '9'
}

pub open spec fn all_digits(s: Seq<char>) -> bool {
    forall|i: int| 0 <= i < s.len() ==> is_digit(#[trigger] s[i])
}

/// The value of a string of decimal digits.
pub open spec fn decimal_value(s: Seq<char>) -> int
    decreases s.len(),
{
    if s.len() == 0 {
        0
    } else {
        decimal_value(s.drop_last()) * 10 + (s.last() as int - '0' as int)
    }
}

/// A non-empty string of ASCII digits whose value fits in `usize` gives that
/// value; any other string gives `None`.
pub open spec fn parsed_decimal(s: Seq<char>) -> Option<usize> {
    if s.len() > 0 && all_digits(s) && decimal_value(s) <= usize::MAX {
        Some(decimal_value(s) as usize)
    } else {
        None
    }
}

proof fn lemma_decimal_grows(s: Seq<char>, n: int)
    requires
        0 <= n <= s.len(),
        all_digits(s),
    ensures
        0 <= decimal_value(s.take(n)) <= decimal_value(s),
    decreases s.len() - n,
{
    if n < s.len() {
        lemma_decimal_grows(s, n + 1);
        assert(s.take(n + 1).drop_last() =~= s.take(n));
        assert(s.take(n + 1).last() == s[n]);
        assert(is_digit(s[n]));
    } else {
        assert(s.take(n) =~= s);
    }
    lemma_decimal_nonneg(s.take(n));
}

proof fn lemma_decimal_nonneg(s: Seq<char>)
    requires
        all_digits(s),
    ensures
        decimal_value(s) >= 0,
    decreases s.len(),
{
    if s.len() > 0 {
        assert(is_digit(s[s.len() - 1]));
        assert(all_digits(s.drop_last())) by {
            assert forall|i: int| 0 <= i < s.drop_last().len() implies is_digit(#[trigger] s.drop_last()[i]) by {
                assert(s.drop_last()[i] == s[i]);
            }
        }
        lemma_decimal_nonneg(s.drop_last());
    }
}

/// Reads a depth written in decimal digits (see `parsed_decimal`).
pub fn parse_depth(digits: &Vec<char>) -> (r: Option<usize>)
    ensures
        r == parsed_decimal(digits@),
{
    if digits.len() == 0 {
        return None;
    }
    let mut i: usize = 0;
    while i < digits.len()
        invariant
            0 <= i <= digits@.len(),
            forall|k: int| 0 <= k < i ==> is_digit(#[trigger] digits@[k]),
        decreases digits@.len() - i,
    {
        if !(digits[i] >= '0' && digits[i] <= '9') {
            assert(!is_digit(digits@[i as int]));
            assert(!all_digits(digits@));
            assert(parsed_decimal(digits@) == None::<usize>);
            return None;
        }
        i = i + 1;
    }
    assert(all_digits(digits@));
    let mut acc: usize = 0;
    let mut j: usize = 0;
    while j < digits.len()
        invariant
            0 <= j <= digits@.len(),
            all_digits(digits@),
            acc == decimal_value(digits@.take(j as int)),
        decreases digits@.len() - j,
    {
        let d = (digits[j] as u32 - '0' as u32) as usize;
        assert(digits@.take(j + 1).drop_last() =~= digits@.take(j as int));
        assert(is_digit(digits@[j as int]));
        assert(d == digits@[j as int] as int - '0' as int);
        assert(decimal_value(digits@.take(j + 1)) == acc * 10 + d);
        if acc > (usize::MAX - d) / 10 {
            proof {
                lemma_decimal_grows(digits@, j + 1);
                assert(acc * 10 + d > usize::MAX) by (nonlinear_arith)
                    requires
                        acc > (usize::MAX - d) / 10,
                        0 <= d <= 9,
                ;
                assert(parsed_decimal(digits@) == None::<usize>);
            }
            return None;
        }
        assert(acc * 10 + d <= usize::MAX) by (nonlinear_arith)
            requires
                acc <= (usize::MAX - d) / 10,
                0 <= d <= 9,
        ;
        acc = acc * 10 + d;
        j = j + 1;
    }
    assert(digits@.take(digits@.len() as int) =~= digits@);
    Some(acc)
}

/// The depth of a slice file, from its name: `DEPTH_PATTERN`'s group
/// `DEPTH_GROUP` read by `parse_depth`; `None` when the name has no digits or
/// the number does not fit.
pub fn depth_from_name(name: &str) -> (r: Option<usize>)
    ensures
        r == match captured_group(DEPTH_PATTERN@, name@, DEPTH_GROUP@) {
            Some(d) => parsed_decimal(d),
            None => None,
        },
{
    match capture_group(DEPTH_PATTERN, name, DEPTH_GROUP) {
        Some(digits) => parse_depth(&digits),
        None => None,
    }
}

} // verus!
