use feiting::matches_rule;
use feiting::parse_pattern;
use feiting::Rule;

#[test]
fn pattern_steps_are_read_in_order() {
    assert_eq!(parse_pattern("單單雙"), vec![Rule::Odd, Rule::Odd, Rule::Even]);
    assert_eq!(parse_pattern("大小小"), vec![Rule::Big, Rule::Small, Rule::Small]);
    assert_eq!(parse_pattern("单双"), vec![Rule::Odd, Rule::Even]);
    assert_eq!(parse_pattern(""), Vec::<Rule>::new());
}

#[test]
fn pattern_pieces_are_three_bytes() {
    // "ab" is one piece that is text but names no step.
    assert_eq!(parse_pattern("ab"), vec![Rule::Unknown]);
    // "單a雙": the pieces after the first straddle characters and are dropped.
    assert_eq!(parse_pattern("單a雙"), vec![Rule::Odd]);
    assert_eq!(parse_pattern("abc大"), vec![Rule::Unknown, Rule::Big]);
}

#[test]
fn last_numbers_follow_the_rule_from_the_end() {
    assert!(matches_rule("1,2,3", "單雙單"));
    assert!(matches_rule("9,9,1,2,3", "雙單"));
    assert!(!matches_rule("9,9,1,2,3", "單單"));
    assert!(matches_rule(" 01, 08 ,10", "單大雙"));
    assert!(matches_rule("1,7", "小大"));
    assert!(!matches_rule("1,5", "小大"));
}

#[test]
fn too_few_numbers_never_match() {
    assert!(!matches_rule("3", "單單"));
    assert!(!matches_rule("", "單"));
}

#[test]
fn pieces_that_are_not_numbers_are_skipped() {
    assert!(matches_rule("1,x,2", "單雙"));
    assert!(matches_rule("1,-3,+4", "單雙"));
    assert!(matches_rule("1,,4", "單雙"));
    assert!(!matches_rule("4294967297,2", "單雙"));
    assert!(matches_rule("4294967295,2", "單雙"));
}

#[test]
fn empty_or_unknown_patterns() {
    assert!(matches_rule("1,2", ""));
    assert!(!matches_rule("1,2", "x"));
}

#[test]
fn simplified_and_traditional_are_interchangeable() {
    for (simplified, traditional) in [
        ("单双", "單雙"),
        ("a单b双", "a單b雙"),
        ("ab单", "ab單"),
        ("x单双y", "x單雙y"),
    ] {
        assert_eq!(parse_pattern(simplified), parse_pattern(traditional));
        for result in ["1,2", "3,4,7,8", "2,1", "9"] {
            assert_eq!(matches_rule(result, simplified), matches_rule(result, traditional));
        }
    }
    assert!(matches_rule("3,8", "单双"));
    assert!(matches_rule("3,8", "單雙"));
}

#[test]
fn dropping_steps_or_adding_numbers_keeps_a_match() {
    assert!(matches_rule("4,7,8", "雙單雙"));
    assert!(matches_rule("4,7,8", "單雙"));
    assert!(matches_rule("4,7,8", "雙"));
    for n in [0u32, 5, 10, 4294967295] {
        assert!(matches_rule(&format!("{},{}", n, "4,7,8"), "雙單雙"));
    }
}
