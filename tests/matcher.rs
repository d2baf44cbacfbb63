use pattern_matcher::{Matcher, MatcherToken};

#[test]
fn simple_test() {
    let match_string = "abc(d|e|f).".to_string();
    let mut matcher = Matcher::new(&match_string).unwrap();

    assert_eq!(matcher.most_tokens_matched, 0);

    {
        let candidate1 = "abcge".to_string();
        let result = matcher.match_string(&candidate1);
        assert_eq!(result, vec![(&MatcherToken::RawText("abc"), "abc"),]);
        assert_eq!(matcher.most_tokens_matched, 1);
    }

    {
        let candidate1 = "abcd💪".to_string();
        let result = matcher.match_string(&candidate1);
        assert_eq!(
            result,
            vec![
                (&MatcherToken::RawText("abc"), "abc"),
                (&MatcherToken::OneOfText(vec!["d", "e", "f"]), "d"),
                (&MatcherToken::WildCard, "💪")
            ]
        );
        assert_eq!(matcher.most_tokens_matched, 3);
    }
}

#[test]
fn broken_matcher() {
    let match_string = "abc(d|e|f.".to_string();
    let matcher = Matcher::new(&match_string);
    assert_eq!(matcher, None);
}

#[test]
fn empty_pattern_has_no_tokens() {
    let matcher = Matcher::new("").unwrap();
    assert!(matcher.tokens.is_empty());
    assert_eq!(matcher.most_tokens_matched, 0);
    assert_eq!(matcher.text, "");
}

#[test]
fn compiles_tokens_in_order() {
    let matcher = Matcher::new("abc(d|e|f).").unwrap();
    assert_eq!(
        matcher.tokens,
        vec![
            MatcherToken::RawText("abc"),
            MatcherToken::OneOfText(vec!["d", "e", "f"]),
            MatcherToken::WildCard,
        ]
    );
}

#[test]
fn adjacent_specials_emit_no_empty_text() {
    let matcher = Matcher::new("..(x)(y)z.").unwrap();
    assert_eq!(
        matcher.tokens,
        vec![
            MatcherToken::WildCard,
            MatcherToken::WildCard,
            MatcherToken::OneOfText(vec!["x"]),
            MatcherToken::OneOfText(vec!["y"]),
            MatcherToken::RawText("z"),
            MatcherToken::WildCard,
        ]
    );
}

#[test]
fn empty_alternatives_are_kept() {
    let matcher = Matcher::new("(|a|)").unwrap();
    assert_eq!(matcher.tokens, vec![MatcherToken::OneOfText(vec!["", "a", ""])]);
    let matcher = Matcher::new("()").unwrap();
    assert_eq!(matcher.tokens, vec![MatcherToken::OneOfText(vec![""])]);
}

#[test]
fn stray_close_paren_is_literal() {
    let matcher = Matcher::new("a)b").unwrap();
    assert_eq!(matcher.tokens, vec![MatcherToken::RawText("a)b")]);
}

#[test]
fn unterminated_group_after_closed_one() {
    assert_eq!(Matcher::new("(a)b(c"), None);
    assert_eq!(Matcher::new("("), None);
}

#[test]
fn empty_candidate_matches_nothing() {
    for pattern in ["", "abc", ".", "(a|b)", "(|x)"] {
        let mut matcher = Matcher::new(pattern).unwrap();
        assert!(matcher.match_string("").is_empty());
        assert_eq!(matcher.most_tokens_matched, 0);
    }
}

#[test]
fn most_tokens_matched_never_decreases() {
    let mut matcher = Matcher::new("a.b.").unwrap();
    assert_eq!(matcher.match_string("axbx").len(), 4);
    assert_eq!(matcher.most_tokens_matched, 4);
    assert_eq!(matcher.match_string("ax").len(), 2);
    assert_eq!(matcher.most_tokens_matched, 4);
    assert_eq!(matcher.match_string("z").len(), 0);
    assert_eq!(matcher.most_tokens_matched, 4);
}

#[test]
fn matched_pieces_rebuild_candidate_prefix() {
    let mut matcher = Matcher::new("h(é|e)..(x|y)").unwrap();
    let candidate = "hé🎉ñyz";
    let result = matcher.match_string(candidate);
    let joined: String = result.iter().map(|(_, s)| *s).collect();
    assert_eq!(joined, "hé🎉ñy");
    assert!(candidate.starts_with(&joined));
    let total: usize = result.iter().map(|(_, s)| s.len()).sum();
    assert_eq!(joined.len(), total);
}

#[test]
fn first_alternative_wins() {
    let mut matcher = Matcher::new("(a|ab)b").unwrap();
    let result = matcher.match_string("abb");
    assert_eq!(
        result,
        vec![
            (&MatcherToken::OneOfText(vec!["a", "ab"]), "a"),
            (&MatcherToken::RawText("b"), "b"),
        ]
    );
    assert_eq!(matcher.most_tokens_matched, 2);
}

#[test]
fn empty_alternative_matches_without_consuming() {
    let mut matcher = Matcher::new("(|a)b").unwrap();
    let result = matcher.match_string("ab");
    assert_eq!(
        result,
        vec![(&MatcherToken::OneOfText(vec!["", "a"]), "")]
    );
}

#[test]
fn candidate_shorter_than_literal_fails() {
    let mut matcher = Matcher::new("x(abc)").unwrap();
    let result = matcher.match_string("xab");
    assert_eq!(result, vec![(&MatcherToken::RawText("x"), "x")]);
    let mut matcher = Matcher::new("abc").unwrap();
    assert!(matcher.match_string("ab").is_empty());
}

#[test]
fn stops_when_candidate_runs_out() {
    let mut matcher = Matcher::new("ab..").unwrap();
    let result = matcher.match_string("abé");
    assert_eq!(
        result,
        vec![(&MatcherToken::RawText("ab"), "ab"), (&MatcherToken::WildCard, "é")]
    );
    assert_eq!(matcher.most_tokens_matched, 2);
}
