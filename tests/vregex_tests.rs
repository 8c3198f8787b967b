use vregex::vregex::regex_parsing::{parse_regex, ParseErrorKind};
use vregex::vregex::{Vregex, VregexError};

#[test]
fn test_validate_literal() {
    let mut vrg = Vregex::new("a");
    assert!(vrg.validate("a").unwrap());
    assert!(!vrg.validate("b").unwrap());
    assert!(!vrg.validate("").unwrap());
}

#[test]
fn test_validate_plus() {
    let mut vrg = Vregex::new("a+b");
    assert!(vrg.validate("a").unwrap());
    assert!(vrg.validate("b").unwrap());
    assert!(!vrg.validate("c").unwrap());
}

#[test]
fn test_validate_concat() {
    let mut vrg = Vregex::new("ab");
    assert!(vrg.validate("ab").unwrap());
    assert!(!vrg.validate("b").unwrap());
    assert!(!vrg.validate("a").unwrap());
    assert!(!vrg.validate("c").unwrap());
    assert!(!vrg.validate("").unwrap());
}

#[test]
fn test_validate_star() {
    let mut vrg = Vregex::new("a*");
    assert!(vrg.validate("a").unwrap());
    assert!(vrg.validate("aaaaaaaaaaa").unwrap());
    assert!(vrg.validate("").unwrap());
    assert!(!vrg.validate("b").unwrap());
    assert!(!vrg.validate("c").unwrap());
}

#[test]
fn test_all() {
    let mut vrg = Vregex::new("((ab)+c)*(z+x)*");
    assert!(vrg.validate("c").unwrap());
    assert!(vrg.validate("ab").unwrap());
    assert!(vrg.validate("abzzzzzxxxxx").unwrap());
    assert!(vrg.validate("ccccccczzzzzxxxxx").unwrap());
    assert!(vrg.validate("ccccccc").unwrap());
    assert!(vrg.validate("ababababzxzxzxzxzxzx").unwrap());
    assert!(vrg.validate("zzxx").unwrap());
    assert!(!vrg.validate("a").unwrap());
    assert!(!vrg.validate("b").unwrap());
    assert!(!vrg.validate("r").unwrap());
}

#[test]
fn composite_accepts_empty_string() {
    let mut vrg = Vregex::new("((ab)+c)*(z+x)*");
    assert!(vrg.validate("").unwrap());
}

#[test]
fn every_letter_matches_only_itself() {
    let letters: Vec<char> = ('a'..='z').collect();
    for &c in &letters {
        let mut vrg = Vregex::new(&c.to_string());
        assert!(vrg.validate(&c.to_string()).unwrap());
        assert!(!vrg.validate("").unwrap());
        for &d in &letters {
            if d != c {
                assert!(!vrg.validate(&d.to_string()).unwrap());
            }
        }
    }
}

#[test]
fn plus_is_alternation_not_repetition() {
    let mut vrg = Vregex::new("a+b");
    assert!(!vrg.validate("ab").unwrap());
    assert!(!vrg.validate("aa").unwrap());
    assert!(!vrg.validate("").unwrap());
}

#[test]
fn concat_rejects_reversed_order() {
    let mut vrg = Vregex::new("ab");
    assert!(!vrg.validate("ba").unwrap());
    assert!(!vrg.validate("abb").unwrap());
}

#[test]
fn alternation_keeps_both_sides_whole() {
    let mut vrg = Vregex::new("x+ab");
    assert!(vrg.validate("x").unwrap());
    assert!(vrg.validate("ab").unwrap());
    assert!(!vrg.validate("xb").unwrap());
    let mut vrg = Vregex::new("x+a*");
    assert!(vrg.validate("x").unwrap());
    assert!(vrg.validate("aaa").unwrap());
    assert!(vrg.validate("").unwrap());
    assert!(!vrg.validate("xx").unwrap());
    assert!(!vrg.validate("xa").unwrap());
}

#[test]
fn nested_stars_are_accepted() {
    let mut vrg = Vregex::new("a**");
    assert!(vrg.validate("").unwrap());
    assert!(vrg.validate("aaa").unwrap());
    assert!(!vrg.validate("b").unwrap());
}

#[test]
fn repeated_queries_give_the_same_answer() {
    let mut vrg = Vregex::new("(ab)*c");
    let words = ["c", "abc", "ab", "", "ababc", "abab"];
    let first: Vec<bool> = words.iter().map(|w| vrg.validate(w).unwrap()).collect();
    assert_eq!(first, vec![true, true, false, false, true, false]);
    for _ in 0..3 {
        for (w, expected) in words.iter().zip(first.iter()) {
            assert_eq!(vrg.validate(w).unwrap(), *expected);
        }
    }
    assert!(!vrg.validate("ab").unwrap());
    assert!(vrg.validate("c").unwrap());
}

#[test]
fn malformed_patterns_are_parse_errors() {
    for p in ["(", ")", "1", "a+", "a)", "(a", "", "a(b", "+a", "*", "A"] {
        assert_eq!(Vregex::compile(p).err(), Some(VregexError::ParsingError), "pattern {:?}", p);
        let mut vrg = Vregex::new(p);
        assert_eq!(vrg.validate("a"), Err(VregexError::ParsingError));
    }
}

#[test]
fn well_formed_patterns_compile() {
    for p in ["a", "a+b", "ab", "a*", "((ab)+c)*(z+x)*", "(a)", "((a))*"] {
        assert!(Vregex::compile(p).is_ok(), "pattern {:?}", p);
    }
}

#[test]
fn parse_error_kinds_and_positions() {
    let e = parse_regex("(").unwrap_err();
    assert_eq!(e.kind, ParseErrorKind::UnexpectedEnd);
    assert_eq!(e.position, 1);
    let e = parse_regex(")").unwrap_err();
    assert_eq!(e.kind, ParseErrorKind::InvalidLiteral(')'));
    assert_eq!(e.position, 0);
    let e = parse_regex("1").unwrap_err();
    assert_eq!(e.kind, ParseErrorKind::InvalidLiteral('1'));
    let e = parse_regex("a+").unwrap_err();
    assert_eq!(e.kind, ParseErrorKind::UnexpectedEnd);
    assert_eq!(e.position, 2);
    let e = parse_regex("ab)").unwrap_err();
    assert_eq!(e.kind, ParseErrorKind::TrailingInput);
    assert_eq!(e.position, 2);
    let e = parse_regex("(ab").unwrap_err();
    assert_eq!(e.kind, ParseErrorKind::UnclosedParen);
    assert_eq!(e.position, 3);
    assert!(!e.description().is_empty());
}

#[test]
fn parse_builds_left_associative_trees() {
    let t = parse_regex("a+b+c").unwrap();
    assert_eq!(format!("{:?}", t), "Plus(Plus(Literal('a'), Literal('b')), Literal('c'))");
    let t = parse_regex("abc").unwrap();
    assert_eq!(format!("{:?}", t), "Concat(Concat(Literal('a'), Literal('b')), Literal('c'))");
    let t = parse_regex("ab*+c").unwrap();
    assert_eq!(format!("{:?}", t), "Plus(Concat(Literal('a'), Star(Literal('b'))), Literal('c'))");
}

#[test]
fn empty_pattern_is_unexpected_end_at_zero() {
    let e = parse_regex("").unwrap_err();
    assert_eq!(e.kind, ParseErrorKind::UnexpectedEnd);
    assert_eq!(e.position, 0);
    let e = parse_regex("a)b").unwrap_err();
    assert_eq!(e.kind, ParseErrorKind::TrailingInput);
    assert_eq!(e.position, 1);
}

#[test]
fn queries_after_many_others_match_a_fresh_engine() {
    let mut used = Vregex::new("(a+b)*c");
    for w in ["", "c", "abc", "x", "aaaa", "bbc", "cc"] {
        let _ = used.validate(w);
    }
    for w in ["", "c", "abc", "x", "aaaa", "bbc", "cc", "bac"] {
        let mut fresh = Vregex::new("(a+b)*c");
        assert_eq!(used.validate(w), fresh.validate(w), "word {:?}", w);
    }
}
