use grep_starter::{MatchError, ParseError, RegexPattern};

fn contains(pattern: &str, haystack: &str) -> bool {
    match RegexPattern::parse(pattern) {
        Ok(p) => match p.is_contained_in(haystack) {
            Ok(found) => found,
            Err(MatchError::TokenInTree) => panic!("parser token reached the matcher"),
        },
        Err(e) => panic!("pattern {:?} rejected: {:?}", pattern, e),
    }
}

fn parse_error(pattern: &str) -> Option<ParseError> {
    match RegexPattern::parse(pattern) {
        Ok(_) => None,
        Err(e) => Some(e),
    }
}

#[test]
fn literal_found() {
    assert!(contains("cat", "the cat sat"));
}

#[test]
fn literal_missing() {
    assert!(!contains("dog", "the cat sat"));
}

#[test]
fn literal_at_end_and_start() {
    assert!(contains("sat", "the cat sat"));
    assert!(contains("the", "the cat sat"));
    assert!(!contains("sat!", "the cat sat"));
}

#[test]
fn empty_pattern_matches_everything() {
    assert!(contains("", ""));
    assert!(contains("", "abc"));
}

#[test]
fn anchors_both_exact() {
    assert!(contains("^cat$", "cat"));
}

#[test]
fn anchors_both_longer_haystack() {
    assert!(!contains("^cat$", "cats"));
}

#[test]
fn anchors_both_later_start() {
    assert!(!contains("^cat$", "a cat"));
}

#[test]
fn start_anchor_only() {
    assert!(contains("^cat", "cats"));
    assert!(!contains("^cat", "a cat"));
}

#[test]
fn end_anchor_only() {
    assert!(contains("cat$", "a cat"));
    assert!(!contains("cat$", "cats"));
}

#[test]
fn end_anchor_ignores_trailing_newlines() {
    assert!(contains("cat$", "a cat\n"));
    assert!(contains("^cat$", "cat\n\n"));
}

#[test]
fn empty_anchored_pattern() {
    assert!(contains("^$", ""));
    assert!(contains("^$", "\n"));
    assert!(!contains("^$", "a"));
}

#[test]
fn one_or_more_on_empty() {
    assert!(!contains("a+", ""));
}

#[test]
fn one_or_more_on_run() {
    assert!(contains("a+", "aaa"));
}

#[test]
fn optional_absent() {
    assert!(contains("colou?r", "color"));
}

#[test]
fn optional_present() {
    assert!(contains("colou?r", "colour"));
}

#[test]
fn optional_twice_fails() {
    assert!(!contains("colou?r", "colouur"));
}

#[test]
fn alternation_second_branch() {
    assert!(contains("(cat|dog)", "I have a dog"));
}

#[test]
fn alternation_no_branch() {
    assert!(!contains("(cat|dog)", "I have a fish"));
}

#[test]
fn alternation_in_context() {
    assert!(contains("a (cat|dog) sat", "a dog sat"));
    assert!(!contains("a (cat|dog) sat", "a cow sat"));
}

#[test]
fn empty_group_matches() {
    assert!(contains("()", ""));
    assert!(contains("x()y", "xy"));
}

#[test]
fn negated_class_all_excluded() {
    assert!(!contains("[^abc]", "abc"));
}

#[test]
fn negated_class_one_allowed() {
    assert!(contains("[^abc]", "abcd"));
}

#[test]
fn positive_class() {
    assert!(contains("[xyz]", "lazy"));
    assert!(!contains("[xyz]", "apple"));
}

#[test]
fn caret_inside_class_is_literal() {
    assert!(contains("[a^]", "^"));
    assert!(!contains("[^^]", "^"));
    assert!(contains("[^^]", "x"));
}

#[test]
fn digit_class() {
    assert!(contains("\\d\\d\\d", "call 911"));
    assert!(!contains("\\d\\d\\d", "call 91"));
}

#[test]
fn word_class() {
    assert!(contains("\\w+", "_hidden"));
    assert!(!contains("\\w", "$!?"));
}

#[test]
fn escaped_literal() {
    assert!(contains("a\\.b", "a.b"));
    assert!(!contains("a\\.b", "axb"));
    assert!(contains("\\+", "1+1"));
}

#[test]
fn escaped_bar_still_splits_a_group() {
    assert!(contains("(a\\|b)", "b"));
}

#[test]
fn wildcard() {
    assert!(contains("c.t", "cut"));
    assert!(!contains(".", "\n"));
}

#[test]
fn greedy_without_backtracking() {
    assert!(!contains("a+a", "aaa"));
}

#[test]
fn repetition_of_empty_match_ends() {
    assert!(contains("a?+", "b"));
    assert!(contains("(|x)+y", "y"));
}

#[test]
fn characters_not_bytes() {
    assert!(contains("f.$", "café"));
    assert!(contains("é+", "cafée"));
}

#[test]
fn parse_twice_agrees() {
    let patterns = ["a+b", "(cat|dog)s?", "^[^x]\\d$", ""];
    let haystacks = ["aab", "dogs", "y7", "", "zzz"];
    for p in patterns.iter() {
        let a = RegexPattern::parse(p).ok().unwrap();
        let b = RegexPattern::parse(p).ok().unwrap();
        for h in haystacks.iter() {
            assert_eq!(a.is_contained_in(h), b.is_contained_in(h));
        }
    }
}

#[test]
fn trailing_backslash_rejected() {
    assert_eq!(parse_error("a\\"), Some(ParseError::TrailingBackslash));
}

#[test]
fn unbalanced_brackets_rejected() {
    assert_eq!(parse_error("[abc"), Some(ParseError::UnbalancedBrackets));
}

#[test]
fn unbalanced_parentheses_rejected() {
    assert_eq!(parse_error("(a|b"), Some(ParseError::UnbalancedParentheses));
    assert_eq!(parse_error("x("), Some(ParseError::UnbalancedParentheses));
}

#[test]
fn quantifier_without_operand_rejected() {
    assert_eq!(parse_error("+"), Some(ParseError::InvalidQuantifierOperand));
    assert_eq!(parse_error("?a"), Some(ParseError::InvalidQuantifierOperand));
}

#[test]
fn errors_inside_group_become_unbalanced_parentheses() {
    assert_eq!(parse_error("(+)"), Some(ParseError::UnbalancedParentheses));
    assert_eq!(parse_error("(a\\"), Some(ParseError::UnbalancedParentheses));
}

#[test]
fn well_formed_patterns_parse() {
    for p in ["a", "^a$", "[]", "(a|)", "\\d+\\w?", ".*", "a)b", "a|b"].iter() {
        assert_eq!(parse_error(p), None);
    }
}

#[test]
fn closing_bar_and_paren_are_literal_outside_groups() {
    assert!(contains("a|b", "xa|by"));
    assert!(!contains("a|b", "b"));
    assert!(contains("a)", "a)"));
}
