use rtok::tokenizer::{group_texts, replaces, MatcherPriority, Token, Tokenizer};

fn texts<'a>(tokens: &[Token<'a>]) -> Vec<&'a str> {
    tokens.iter().map(|t| t.parts[0].unwrap()).collect()
}

#[test]
fn test_whitespace() {
    let tokenizer = Tokenizer::make(MatcherPriority::First, vec![(r"(\s+)", 0)]).unwrap();

    let startstr = String::from("this is a test");

    let tokens = tokenizer.tokenize(&startstr);

    assert_eq!(tokens.len(), 3);
}

#[test]
fn test_numbers() {
    let tokenizer = Tokenizer::make(
        MatcherPriority::First,
        vec![(r"^(\s+)", 0), (r"^(\d+\.\d+)", 2), (r"^(\d+)", 1)],
    )
    .unwrap();

    let startstr = String::from("1 2 3.14 5.123 123");

    let tokens = tokenizer.tokenize(&startstr);

    assert_eq!(tokens.len(), 9);
}

#[test]
fn test_priority_longest() {
    let tokenizer = Tokenizer::make(
        MatcherPriority::Longest,
        vec![(r"^(\s+)", 0), (r"^(\d+)", 1), (r"^(\d+\.\d+)", 2)],
    )
    .unwrap();

    let startstr = String::from("1 234245 3.14 5.123 123");

    let tokens = tokenizer.tokenize(&startstr);

    assert_eq!(tokens.len(), 9);
}

#[test]
fn test_priority_shortest() {
    let tokenizer = Tokenizer::make(
        MatcherPriority::Shortest,
        vec![(r"^(\s+)", 0), (r"^(\d+\.\d+)", 2), (r"^(\d+)", 1)],
    )
    .unwrap();

    let startstr = String::from("1 234245 3.14 5.123 123");

    let tokens = tokenizer.tokenize(&startstr);

    assert_eq!(tokens.len(), 5);
}

#[test]
fn whitespace_tokens_are_the_gaps() {
    let tokenizer = Tokenizer::make(MatcherPriority::First, vec![(r"(\s+)", 0)]).unwrap();
    let input = String::from("this is a test");
    let (tokens, rest) = tokenizer.tokenize_with_rest(&input);
    assert_eq!(texts(&tokens), vec![" ", " ", " "]);
    assert!(tokens.iter().all(|t| t.typ == 0));
    assert_eq!(rest, "test");
}

#[test]
fn first_takes_earliest_matcher() {
    let tokenizer = Tokenizer::make(
        MatcherPriority::First,
        vec![(r"^(\s+)", 0), (r"^(\d+)", 1), (r"^(\d+\.\d+)", 2)],
    )
    .unwrap();
    let input = String::from("3.14");
    let (tokens, rest) = tokenizer.tokenize_with_rest(&input);
    assert_eq!(tokens.len(), 1);
    assert_eq!(tokens[0].typ, 1);
    assert_eq!(tokens[0].parts, vec![Some("3"), Some("3")]);
    assert_eq!(rest, ".14");
}

#[test]
fn first_types_of_number_list() {
    let tokenizer = Tokenizer::make(
        MatcherPriority::First,
        vec![(r"^(\s+)", 0), (r"^(\d+\.\d+)", 2), (r"^(\d+)", 1)],
    )
    .unwrap();
    let input = String::from("1 2 3.14 5.123 123");
    let tokens = tokenizer.tokenize(&input);
    let types: Vec<i32> = tokens.iter().map(|t| t.typ).collect();
    assert_eq!(types, vec![1, 0, 1, 0, 2, 0, 2, 0, 1]);
    assert_eq!(texts(&tokens), vec!["1", " ", "2", " ", "3.14", " ", "5.123", " ", "123"]);
}

#[test]
fn longest_reads_floats_whole() {
    let tokenizer = Tokenizer::make(
        MatcherPriority::Longest,
        vec![(r"^(\s+)", 0), (r"^(\d+)", 1), (r"^(\d+\.\d+)", 2)],
    )
    .unwrap();
    let input = String::from("1 2 3.14 5.123 123");
    let tokens = tokenizer.tokenize(&input);
    assert_eq!(tokens.len(), 9);
    assert_eq!(tokens[4].typ, 2);
    assert_eq!(tokens[4].parts[0], Some("3.14"));
    assert_eq!(tokens[6].parts[0], Some("5.123"));
}

#[test]
fn longest_keeps_earlier_on_equal_length() {
    let tokenizer =
        Tokenizer::make(MatcherPriority::Longest, vec![(r"^(ab)", 7), (r"^(a.)", 8)]).unwrap();
    let input = String::from("ab");
    let tokens = tokenizer.tokenize(&input);
    assert_eq!(tokens.len(), 1);
    assert_eq!(tokens[0].typ, 7);
}

#[test]
fn shortest_stops_at_the_dot() {
    let tokenizer = Tokenizer::make(
        MatcherPriority::Shortest,
        vec![(r"^(\s+)", 0), (r"^(\d+\.\d+)", 2), (r"^(\d+)", 1)],
    )
    .unwrap();
    let input = String::from("1 234245 3.14 5.123 123");
    let (tokens, rest) = tokenizer.tokenize_with_rest(&input);
    assert_eq!(texts(&tokens), vec!["1", " ", "234245", " ", "3"]);
    assert_eq!(rest, ".14 5.123 123");
}

#[test]
fn scan_round_trips_input() {
    let tokenizer = Tokenizer::make(
        MatcherPriority::Longest,
        vec![(r"^(\s+)", 0), (r"^(\d+)", 1), (r"^(\d+\.\d+)", 2)],
    )
    .unwrap();
    let input = "12 3.5 éa 7";
    let (tokens, rest) = tokenizer.tokenize_with_rest(input);
    let mut joined: String = texts(&tokens).concat();
    joined.push_str(rest);
    assert_eq!(joined, input);
    assert_eq!(rest, "éa 7");
}

#[test]
fn unmatched_group_is_none() {
    let tokenizer = Tokenizer::make(MatcherPriority::First, vec![(r"^(a)|^(b)", 3)]).unwrap();
    let input = String::from("ba");
    let tokens = tokenizer.tokenize(&input);
    assert_eq!(tokens.len(), 2);
    assert_eq!(tokens[0].parts, vec![Some("b"), None, Some("b")]);
    assert_eq!(tokens[1].parts, vec![Some("a"), Some("a"), None]);
}

#[test]
fn empty_input_gives_no_tokens() {
    let tokenizer = Tokenizer::make(MatcherPriority::First, vec![(r"^(\s+)", 0)]).unwrap();
    let (tokens, rest) = tokenizer.tokenize_with_rest("");
    assert!(tokens.is_empty());
    assert_eq!(rest, "");
}

#[test]
fn empty_match_ends_the_scan() {
    let tokenizer = Tokenizer::make(MatcherPriority::First, vec![(r"^(x*)", 0)]).unwrap();
    let (tokens, rest) = tokenizer.tokenize_with_rest("xxab");
    assert_eq!(texts(&tokens), vec!["xx"]);
    assert_eq!(rest, "ab");
}

#[test]
fn invalid_pattern_is_refused() {
    let r = Tokenizer::make(MatcherPriority::First, vec![(r"^(\s+)", 0), (r"(", 1), (r"[", 2)]);
    match r {
        Err(e) => assert_eq!(e.pattern, "("),
        Ok(_) => panic!("a pattern that does not compile was accepted"),
    }
}

#[test]
fn tokenizer_built_by_hand() {
    let mut tokenizer = Tokenizer::new(MatcherPriority::First);
    tokenizer.add_matcher(rtok::tokenizer::Matcher::new(r"^([a-z]+)", 5).unwrap());
    tokenizer.add_matcher(rtok::tokenizer::Matcher::new(r"^(\s+)", 6).unwrap());
    let input = String::from("ab cd");
    let tokens = tokenizer.tokenize(&input);
    let types: Vec<i32> = tokens.iter().map(|t| t.typ).collect();
    assert_eq!(types, vec![5, 6, 5]);
}

#[test]
fn replacement_follows_priority() {
    assert!(!replaces(MatcherPriority::First, 1, 9));
    assert!(replaces(MatcherPriority::Longest, 3, 5));
    assert!(!replaces(MatcherPriority::Longest, 5, 5));
    assert!(!replaces(MatcherPriority::Longest, 5, 3));
    assert!(replaces(MatcherPriority::Shortest, 5, 3));
    assert!(!replaces(MatcherPriority::Shortest, 3, 3));
    assert!(!replaces(MatcherPriority::Shortest, 3, 5));
}

#[test]
fn group_texts_cut_the_spans() {
    let hay = "h\u{e9}llo";
    let parts = group_texts(hay, &vec![Some((0, 6)), None, Some((1, 3)), Some((3, 3))]);
    assert_eq!(parts, vec![Some("h\u{e9}llo"), None, Some("\u{e9}"), Some("")]);
}
