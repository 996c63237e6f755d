use slow_align::levenshtein::levenstein_distance;
use slow_align::text::{contains_char, parse_usize, split_char, split_whitespace};

#[test]
fn levenstein_distance_classic_pairs() {
    assert_eq!(levenstein_distance("kitten", "sitting"), 3);
    assert_eq!(levenstein_distance("flaw", "lawn"), 2);
    assert_eq!(levenstein_distance("", "abc"), 3);
    assert_eq!(levenstein_distance("abc", ""), 3);
    assert_eq!(levenstein_distance("", ""), 0);
}

#[test]
fn levenstein_distance_identity_and_symmetry() {
    assert_eq!(levenstein_distance("Haus", "Haus"), 0);
    assert_eq!(levenstein_distance("house", "Haus"), levenstein_distance("Haus", "house"));
    assert_eq!(levenstein_distance("house", "Haus"), 3);
}

#[test]
fn levenstein_distance_counts_characters_not_bytes() {
    assert_eq!(levenstein_distance("čau", "cau"), 1);
    assert_eq!(levenstein_distance("žluť", "zlut"), 2);
}

#[test]
fn levenstein_distance_bounded_by_longer_word() {
    let d = levenstein_distance("abcd", "wxyz");
    assert_eq!(d, 4);
    assert!(levenstein_distance("ab", "wxyz") <= 4);
    assert!(levenstein_distance("ab", "wxyz") >= 2);
}

#[test]
fn split_whitespace_drops_runs_of_spaces() {
    let words = split_whitespace("  the\tquick \n brown  ");
    assert_eq!(words, vec!["the".to_string(), "quick".to_string(), "brown".to_string()]);
    assert!(split_whitespace("").is_empty());
    assert!(split_whitespace(" \t\n").is_empty());
}

#[test]
fn split_whitespace_unicode_spaces() {
    let words = split_whitespace("a\u{3000}b\u{00a0}c\u{2003}d");
    assert_eq!(words, vec!["a", "b", "c", "d"]);
    let expected: Vec<String> = "x\u{85}y".split_whitespace().map(|s| s.to_string()).collect();
    assert_eq!(split_whitespace("x\u{85}y"), expected);
}

#[test]
fn split_whitespace_matches_std_on_samples() {
    for s in ["Ein kleiner  Test .", "\u{2028}x\u{1680}y ", "ä ö ü", "no-space"] {
        let expected: Vec<String> = s.split_whitespace().map(|w| w.to_string()).collect();
        assert_eq!(split_whitespace(s), expected);
    }
}

#[test]
fn split_char_keeps_empty_pieces() {
    assert_eq!(split_char("a\n\nb", '\n'), vec!["a", "", "b"]);
    assert_eq!(split_char("", '\n'), vec![""]);
    assert_eq!(split_char("\n", '\n'), vec!["", ""]);
    assert_eq!(split_char("1-2", '-'), vec!["1", "2"]);
    for s in ["x,y,,z", ",", "abc", "ä,ö"] {
        let expected: Vec<String> = s.split(',').map(|w| w.to_string()).collect();
        assert_eq!(split_char(s, ','), expected);
    }
}

#[test]
fn parse_usize_accepts_plain_and_plus_signed() {
    assert_eq!(parse_usize("0"), Some(0));
    assert_eq!(parse_usize("42"), Some(42));
    assert_eq!(parse_usize("+7"), Some(7));
    assert_eq!(parse_usize("007"), Some(7));
    assert_eq!(parse_usize(&usize::MAX.to_string()), Some(usize::MAX));
}

#[test]
fn parse_usize_rejects_what_std_rejects() {
    for s in ["", "+", "-1", "12a", " 1", "1.0", "++1"] {
        assert_eq!(parse_usize(s), None, "{:?}", s);
        assert!(s.parse::<usize>().is_err());
    }
    let too_big = format!("{}0", usize::MAX);
    assert_eq!(parse_usize(&too_big), None);
}

#[test]
fn contains_char_finds_characters() {
    assert!(contains_char("3?4", '?'));
    assert!(!contains_char("34", '?'));
    assert!(!contains_char("", '-'));
}
