use semver_bump::error::Error;
use semver_bump::pattern::{find_matches, find_versions, VERSION_PATTERN};

#[test]
fn the_version_pattern_compiles() {
    assert!(find_matches(VERSION_PATTERN, "").is_ok());
    assert!(find_versions("").is_ok());
}

#[test]
fn a_pattern_that_does_not_compile_is_reported() {
    assert_eq!(find_matches("(", "1.2.3"), Err(Error::InvalidPattern));
    assert_eq!(find_matches("[a-", ""), Err(Error::InvalidPattern));
    assert_eq!(find_matches("a{2,1}", "aa"), Err(Error::InvalidPattern));
}

#[test]
fn find_matches_runs_the_pattern_it_is_given() {
    assert_eq!(find_matches("a+", "caaab a"), Ok(vec![(1, 4), (6, 7)]));
    assert_eq!(find_matches("b", "caaab a"), Ok(vec![(4, 5)]));
    assert_eq!(find_matches("x", "caaab a"), Ok(vec![]));
}

#[test]
fn find_matches_and_find_versions_agree_on_the_version_pattern() {
    for text in ["", "1.2.3", "a 1.2.3 b 4.5.6", "1.2", "10.20.30.40.50.60"] {
        assert_eq!(find_matches(VERSION_PATTERN, text), find_versions(text));
    }
}

#[test]
fn matches_may_be_empty_and_still_come_in_order() {
    assert_eq!(find_matches("a*", "baac"), Ok(vec![(0, 0), (1, 3), (4, 4)]));
}

#[test]
fn matches_fall_on_character_boundaries() {
    let text = "\u{e9}1.2.3\u{e9} \u{4e16}4.5.6\u{1f600}";
    let spans = find_versions(text).unwrap();
    assert_eq!(spans, vec![(2, 7), (13, 18)]);
    for (start, end) in spans {
        assert!(text.is_char_boundary(start));
        assert!(text.is_char_boundary(end));
        assert!(start <= end && end <= text.len());
    }
}

#[test]
fn the_version_pattern_is_three_digit_runs_between_dots() {
    assert_eq!(VERSION_PATTERN, r"\d+\.\d+\.\d+");
}
