use vlung_analysis::depth::{depth_from_name, parse_depth};

fn chars(s: &str) -> Vec<char> {
    s.chars().collect()
}

#[test]
fn depth_is_the_first_run_of_digits() {
    assert_eq!(depth_from_name("IMG0042.dcm"), Some(42));
    assert_eq!(depth_from_name("slice_7_of_9"), Some(7));
    assert_eq!(depth_from_name("123"), Some(123));
}

#[test]
fn name_without_digits_has_no_depth() {
    assert_eq!(depth_from_name("scan.dcm"), None);
    assert_eq!(depth_from_name(""), None);
}

#[test]
fn depth_too_large_for_usize() {
    assert_eq!(depth_from_name("a99999999999999999999999"), None);
}

#[test]
fn parse_depth_values() {
    assert_eq!(parse_depth(&chars("0")), Some(0));
    assert_eq!(parse_depth(&chars("0105")), Some(105));
    assert_eq!(parse_depth(&chars("18446744073709551615")), Some(usize::MAX));
    assert_eq!(parse_depth(&chars("18446744073709551616")), None);
    assert_eq!(parse_depth(&chars("")), None);
    assert_eq!(parse_depth(&chars("1a")), None);
    assert_eq!(parse_depth(&chars("+1")), None);
}
