use regex_grep::matcher::{make_alpha_num_matcher, make_digit_matcher, Match, Matcher};
use regex_grep::regex_parser::{ParseError, RegexParser};
use regex_grep::{colorize_line, get_color_mode, match_all, ColorMode};

fn make_matcher(pattern: &str) -> Matcher {
    match RegexParser::new(pattern).parse() {
        Ok(m) => m,
        Err(_) => panic!("pattern should parse"),
    }
}

fn parse_err(pattern: &str) -> ParseError {
    match RegexParser::new(pattern).parse() {
        Ok(_) => panic!("pattern should be rejected"),
        Err(e) => e,
    }
}

fn group_text(m: &Match, idx: usize) -> String {
    for entry in &m.sub_matches {
        if entry.0 == idx {
            return entry.1.matched_text.clone();
        }
    }
    panic!("group should have been captured");
}

#[test]
fn test_single_char_matcher() {
    let matcher = make_matcher("a");
    let m = matcher.find_match("cat");
    assert!(m.is_some());

    let m = m.unwrap();
    assert_eq!(m.offset, 1);
}

#[test]
fn test_negative_group() {
    let text = "banana";
    let matcher = make_matcher("[^anb]");

    assert!(matcher.find_match(text).is_none());
}

#[test]
fn test_sequence_matcher() {
    let text = "sally has 3 apples";
    let pattern = r"\d apples";

    let matcher = make_matcher(pattern);
    let m_opt = matcher.find_match(text);

    assert!(m_opt.is_some());
}

#[test]
fn sequence_matcher_works() {
    let text = "babanana";
    let pattern = "ban";

    let matcher = make_matcher(pattern);
    let m_opt = matcher.find_match(text);

    assert!(m_opt.is_some());
    let m = m_opt.unwrap();
    assert_eq!(m.matched_text, "ban");
    assert_eq!(m.offset, 2);
}

#[test]
fn test_start_matcher() {
    let start_matcher = make_matcher("^ban");

    let m = start_matcher.find_match("rayban");
    assert!(m.is_none());
    let m = start_matcher.find_match("banner");
    assert!(m.is_some());
    assert_eq!(m.unwrap().offset, 0);
}

#[test]
fn test_end_matcher() {
    let end_matcher = make_matcher("ban$");

    let m = end_matcher.find_match("banner");
    assert!(m.is_none());
    let m = end_matcher.find_match("rayban");
    assert!(m.is_some());
    assert_eq!(m.unwrap().offset, 3);
}

#[test]
fn test_one_or_more_matcher() {
    let matcher = make_matcher("o+");
    let m = matcher.find_match("room");
    assert!(m.is_some());
    assert_eq!(m.unwrap().matched_text, "oo");
}

#[test]
fn test_one_or_more_matcher_not_greedy() {
    let matcher = make_matcher("ca+at");
    let m = matcher.find_match("caaats");
    assert!(m.is_some());
    assert_eq!(m.unwrap().matched_text, "caaat");
}

#[test]
fn test_one_or_more_matcher_at_start() {
    let matcher = make_matcher(".+berry");
    let m = matcher.find_match("strawberry");
    assert!(m.is_some());
    assert_eq!(m.unwrap().matched_text, "strawberry");
}

#[test]
fn test_zero_or_one_matcher() {
    let matcher = make_matcher("re?m");
    let m = matcher.find_match("rm");
    assert!(m.is_some());
    let m = matcher.find_match("rm");
    assert!(m.is_some());
}

#[test]
fn test_zero_or_more_matcher() {
    let matcher = make_matcher("go*gle");
    let m = matcher.find_match("ggler");
    assert!(m.is_some());
    assert_eq!(m.unwrap().matched_text, "ggle");
}

#[test]
fn test_quantifier() {
    let matcher = make_matcher("ro{2}m");
    let m = matcher.find_match("rome");
    assert!(m.is_none());
    let m = matcher.find_match("room");
    assert!(m.is_some());
    let m = matcher.find_match("vroooom");
    assert!(m.is_none());
}

#[test]
fn test_wildcard_matcher() {
    let matcher = make_matcher("g.+gol");
    let m = matcher.find_match("goøö0Ogol");
    assert!(m.is_some());
}

#[test]
fn test_alternation_matcher() {
    let matcher = make_matcher("(pad|r(a|ö))deln");
    let m = matcher.find_match("paddeln");
    assert!(m.is_some());
    let m = matcher.find_match("radeln");
    assert!(m.is_some());
    let m = matcher.find_match("rodeln");
    assert!(m.is_none());
    let m = matcher.find_match("rödeln");
    assert!(m.is_some());
}

#[test]
fn test_single_backreference_matcher() {
    let matcher = make_matcher(r"(\w+) and \1");
    let m = matcher.find_match("cat and cat");
    assert!(m.is_some());
    let m = matcher.find_match("cat and dog");
    assert!(m.is_none());
}

#[test]
fn test_multiple_backreference_matcher() {
    let matcher = make_matcher(r"(\d+) (\w+) squares and \1 \2 circles");
    let m = matcher.find_match("3 red squares and 3 red circles");
    assert!(m.is_some());
    let m = matcher.find_match("3 red squares and 3 blue circles");
    assert!(m.is_none());
}

#[test]
fn test_nested_backreference_matcher() {
    let matcher = make_matcher(r"(([abc]+)-([def]+)) is \1, not ([^xyz]+), \2, or \3");
    let m = matcher.find_match("abc-def is abc-def, not efg, abc, or def");
    assert!(m.is_some());
}

#[test]
fn digit_escape_scenario() {
    let matcher = make_matcher(r"\d apples");
    let m = matcher.find_match("sally has 3 apples").unwrap();
    assert_eq!(m.matched_text, "3 apples");
    assert_eq!(m.offset, 10);
}

#[test]
fn wildcard_scenario_full_text() {
    let matcher = make_matcher("g.+gol");
    let m = matcher.find_match("goøö0Ogol").unwrap();
    assert_eq!(m.matched_text, "goøö0Ogol");
    assert_eq!(m.offset, 0);
}

#[test]
fn alternation_scenario_groups() {
    let matcher = make_matcher("(pad|r(a|ö))deln");
    let m = matcher.find_match("rödeln").unwrap();
    assert_eq!(m.matched_text, "rödeln");
    assert_eq!(m.offset, 0);
    assert_eq!(group_text(&m, 1), "rö");
    assert_eq!(group_text(&m, 2), "ö");
}

#[test]
fn nested_backreference_full_text() {
    let matcher = make_matcher(r"(([abc]+)-([def]+)) is \1, not ([^xyz]+), \2, or \3");
    let text = "abc-def is abc-def, not efg, abc, or def";
    let m = matcher.find_match(text).unwrap();
    assert_eq!(m.matched_text, text);
    assert_eq!(m.offset, 0);
}

#[test]
fn empty_text_start_end() {
    let matcher = make_matcher("^$");
    let m = matcher.find_match("").unwrap();
    assert_eq!(m.offset, 0);
    assert_eq!(m.matched_text, "");
    assert!(make_matcher("^$").find_match("x").is_none());
}

#[test]
fn end_anchor_matches_at_character_count() {
    let matcher = make_matcher("$");
    let m = matcher.find_match("goøö").unwrap();
    assert_eq!(m.offset, 4);
    assert_eq!(m.matched_text, "");
}

#[test]
fn wildcard_star_matches_empty() {
    let matcher = make_matcher(".*");
    assert!(matcher.matches(""));
    let m = matcher.find_match("").unwrap();
    assert_eq!(m.matched_text, "");
}

#[test]
fn quantifier_without_atom_is_error() {
    assert_eq!(parse_err("+a"), ParseError::QuantifierWithoutAtom);
    assert_eq!(parse_err("*a"), ParseError::QuantifierWithoutAtom);
    assert_eq!(parse_err("?a"), ParseError::QuantifierWithoutAtom);
    assert_eq!(parse_err("{2}a"), ParseError::QuantifierWithoutAtom);
}

#[test]
fn backreference_to_unopened_group_is_error() {
    assert_eq!(parse_err(r"\1"), ParseError::InvalidBackref(1));
    assert_eq!(parse_err(r"(a)\2"), ParseError::InvalidBackref(2));
    assert_eq!(parse_err(r"\0"), ParseError::InvalidBackref(0));
    assert_eq!(parse_err(r"(a)\0"), ParseError::InvalidBackref(0));
    assert!(make_matcher(r"(a)\1").matches("aa"));
}

#[test]
fn each_parse_error_has_an_input() {
    assert_eq!(parse_err(""), ParseError::UnexpectedEnd);
    assert_eq!(parse_err("\\"), ParseError::UnexpectedEnd);
    assert_eq!(parse_err(r"\x"), ParseError::InvalidEscape('x'));
    assert_eq!(parse_err("(a|)"), ParseError::EmptyAlternative);
    assert_eq!(parse_err("(a"), ParseError::UnbalancedParen);
    assert_eq!(parse_err("[ab"), ParseError::UnbalancedBracket);
    assert_eq!(parse_err("a{}"), ParseError::InvalidQuantifierBody);
    assert_eq!(parse_err("a{x}"), ParseError::InvalidQuantifierBody);
    assert_eq!(parse_err("a{2"), ParseError::UnexpectedEnd);
}

#[test]
fn find_all_matches_non_overlapping_increasing() {
    let matcher = make_matcher("a");
    let all = matcher.find_all_matches("banana");
    assert_eq!(all.len(), 3);
    assert_eq!(all[0].offset, 1);
    assert_eq!(all[1].offset, 3);
    assert_eq!(all[2].offset, 5);
    for w in all.windows(2) {
        assert!(w[0].offset + w[0].matched_text.chars().count() <= w[1].offset);
    }
}

#[test]
fn find_all_matches_advances_past_empty_matches() {
    let matcher = make_matcher("x*");
    let all = matcher.find_all_matches("abc");
    assert_eq!(all.len(), 4);
    for (i, m) in all.iter().enumerate() {
        assert_eq!(m.offset, i);
        assert_eq!(m.matched_text, "");
    }
}

#[test]
fn literal_pattern_matches_itself_once() {
    let matcher = make_matcher("hello");
    let all = matcher.find_all_matches("hello");
    assert_eq!(all.len(), 1);
    assert_eq!(all[0].offset, 0);
    assert_eq!(all[0].matched_text, "hello");
}

#[test]
fn matches_agrees_with_find_match() {
    for (pattern, text) in [
        ("a", "cat"),
        ("^ban", "rayban"),
        ("ban$", "rayban"),
        ("[^anb]", "banana"),
        ("go*gle", "ggler"),
    ] {
        let matcher = make_matcher(pattern);
        assert_eq!(matcher.matches(text), matcher.find_match(text).is_some());
    }
}

#[test]
fn parse_twice_yields_equal_trees() {
    let pattern = "(pad|r(a|ö))de*ln";
    let first = make_matcher(pattern).find_match("rödeln").unwrap();
    let second = make_matcher(pattern).find_match("rödeln").unwrap();
    assert_eq!(first.offset, second.offset);
    assert_eq!(first.matched_text, second.matched_text);
    assert_eq!(first.sub_matches.len(), second.sub_matches.len());
    assert_eq!(group_text(&first, 1), group_text(&second, 1));
    assert_eq!(group_text(&first, 2), group_text(&second, 2));
}

#[test]
fn concatenated_text_keeps_suffix_match() {
    let matcher = make_matcher("na+");
    let t1 = "zzz";
    let t2 = "banana";
    assert!(matcher.matches(t2));
    let joined = format!("{}{}", t1, t2);
    assert!(matcher.matches(&joined));
}

#[test]
fn group_captures_are_recorded_per_index() {
    let matcher = make_matcher("(a)(b)");
    let m = matcher.find_match("ab").unwrap();
    assert_eq!(m.matched_text, "ab");
    assert_eq!(group_text(&m, 1), "a");
    assert_eq!(group_text(&m, 2), "b");
}

#[test]
fn adjacent_repetitions_merge() {
    let matcher = make_matcher("ro{2}o*m");
    assert!(matcher.matches("room"));
    assert!(matcher.matches("roooom"));
    assert!(!matcher.matches("rom"));
}

#[test]
fn class_matchers_accept_their_characters() {
    assert!(make_digit_matcher().matches("7"));
    assert!(!make_digit_matcher().matches("x"));
    assert!(make_alpha_num_matcher().matches("_"));
    assert!(!make_alpha_num_matcher().matches("-"));
}

#[test]
fn match_all_treats_bad_pattern_as_no_matches() {
    assert_eq!(match_all("some text", "(a").len(), 0);
    let all = match_all("banana", "an");
    assert_eq!(all.len(), 2);
    assert_eq!(all[0].offset, 1);
    assert_eq!(all[1].offset, 3);
}

#[test]
fn color_mode_values() {
    assert!(matches!(get_color_mode("always"), Some(ColorMode::Always)));
    assert!(matches!(get_color_mode("auto"), Some(ColorMode::Auto)));
    assert!(matches!(get_color_mode("never"), Some(ColorMode::Never)));
    assert!(get_color_mode("sometimes").is_none());
}

#[test]
fn escaped_metacharacters_are_literal() {
    assert!(make_matcher(r"\+").matches("1+2"));
    assert!(make_matcher(r"\.").matches("a.b"));
    assert!(!make_matcher(r"\.").matches("ab"));
    assert!(make_matcher(r"\\").matches("a\\b"));
    assert!(make_matcher(r"\(").matches("f(x)"));
    assert!(make_matcher(r"\[").matches("a[0]"));
    assert!(make_matcher(r"\?").matches("why?"));
}

#[test]
fn matched_text_is_the_slice_at_its_offset() {
    let matcher = make_matcher(r"(\w+) and \1");
    let text = "a cat and cat nap";
    let m = matcher.find_match(text).unwrap();
    let chars: Vec<char> = text.chars().collect();
    let len = m.matched_text.chars().count();
    let slice: String = chars[m.offset..m.offset + len].iter().collect();
    assert_eq!(slice, m.matched_text);
    for entry in &m.sub_matches {
        let sub = &entry.1;
        let sub_len = sub.matched_text.chars().count();
        let sub_slice: String = chars[sub.offset..sub.offset + sub_len].iter().collect();
        assert_eq!(sub_slice, sub.matched_text);
    }
}

#[test]
fn colorize_wraps_matches_in_red() {
    let matcher = make_matcher("an");
    let all = matcher.find_all_matches("banana");
    let colored = colorize_line("banana", &all, &ColorMode::Always);
    assert_eq!(colored, "b\x1b[1;31man\x1b[0m\x1b[1;31man\x1b[0ma");
    assert_eq!(colorize_line("banana", &all, &ColorMode::Never), "banana");
    assert_eq!(colorize_line("banana", &all, &ColorMode::Auto), "banana");
}

#[test]
fn colorize_slices_on_character_boundaries() {
    let matcher = make_matcher("ö+");
    let all = matcher.find_all_matches("gööd");
    let colored = colorize_line("gööd", &all, &ColorMode::Always);
    assert_eq!(colored, "g\x1b[1;31möö\x1b[0md");
}

#[test]
fn oversized_quantifier_is_rejected() {
    assert_eq!(
        parse_err("a{99999999999999999999}"),
        ParseError::InvalidQuantifierBody
    );
    assert!(make_matcher("a{0}").matches(""));
}

#[test]
fn unclosed_class_with_bracket_body_is_rejected() {
    assert_eq!(parse_err("[]"), ParseError::UnbalancedBracket);
    assert!(make_matcher("[]]").matches("]"));
}

#[test]
fn follow_applies_to_bounded_quantifiers() {
    let matcher = make_matcher("(a)?a");
    let m = matcher.find_match("a").unwrap();
    assert_eq!(m.matched_text, "a");
    assert_eq!(m.offset, 0);
    let m = matcher.find_match("aa").unwrap();
    assert_eq!(m.matched_text, "a");
    assert_eq!(m.offset, 0);
}

#[test]
fn merging_adjacent_repetitions_is_observable() {
    let merged = make_matcher("a+a");
    let m = merged.find_match("aaa").unwrap();
    assert_eq!(m.matched_text, "aaa");

    let unmerged = Matcher::Sequence(vec![
        Matcher::Multiple {
            matcher: Box::new(Matcher::SingleChar('a')),
            min: 1,
            max: None,
            follow: Some(Box::new(Matcher::SingleChar('a'))),
        },
        Matcher::SingleChar('a'),
    ]);
    let m = unmerged.find_match("aaa").unwrap();
    assert_eq!(m.matched_text, "aa");
}

#[test]
fn concatenation_can_match_only_across_the_boundary() {
    let matcher = make_matcher("ab");
    let t1 = "za";
    let t2 = "bz";
    assert!(!matcher.matches(t1));
    assert!(!matcher.matches(t2));
    let joined = format!("{}{}", t1, t2);
    assert!(matcher.matches(&joined));
}
