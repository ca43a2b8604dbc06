use lexgen::build_lexer;
use lexgen::Action;
use lexgen::Match;
use lexgen::Lexer;
use lexgen::LexerRule;
use lexgen::Token;

fn lit(s: &str) -> LexerRule {
    LexerRule::Literal(s.chars().collect())
}

fn build(tokens: Vec<(&str, LexerRule)>) -> Lexer {
    let owned: Vec<(String, LexerRule)> = tokens
        .into_iter()
        .map(|(n, r)| (n.to_string(), r))
        .collect();
    build_lexer(&owned).expect("token list should build")
}

fn concat_texts(tokens: &[Token]) -> String {
    let mut s = String::new();
    for t in tokens {
        s.push_str(&t.text);
    }
    s
}

#[test]
fn maximal_munch_unbounded_repeat() {
    let lexer = build(vec![(
        "E_PLUS",
        LexerRule::Repeat(Box::new(LexerRule::Range('e', 'e')), 1, None),
    )]);
    let out = lexer.lex_input("eee");
    assert_eq!(out.len(), 1);
    assert_eq!(out[0].name, "E_PLUS");
    assert_eq!(out[0].text, "eee");
    assert_eq!(out[0].start, 0);
    assert_eq!(out[0].end, 3);
    assert!(!out[0].error);
}

#[test]
fn alternation_feeding_exact_repeat() {
    let rule = LexerRule::Concat(
        Box::new(LexerRule::Alternate(Box::new(lit("a")), Box::new(lit("b")))),
        Box::new(LexerRule::Repeat(
            Box::new(LexerRule::Range('a', 'c')),
            2,
            Some(2),
        )),
    );
    let lexer = build(vec![("AB_CC", rule)]);

    let out = lexer.lex_input("acc");
    assert_eq!(out.len(), 1);
    assert_eq!(out[0].name, "AB_CC");
    assert_eq!(out[0].text, "acc");
    assert!(!out[0].error);

    let rule2 = LexerRule::Concat(
        Box::new(LexerRule::Alternate(Box::new(lit("a")), Box::new(lit("b")))),
        Box::new(LexerRule::Repeat(
            Box::new(LexerRule::Range('a', 'c')),
            2,
            Some(2),
        )),
    );
    let lexer2 = build(vec![("AB_CC", rule2)]);
    let out2 = lexer2.lex_input("bac");
    assert_eq!(out2.len(), 1);
    assert_eq!(out2[0].name, "AB_CC");
    assert_eq!(out2[0].text, "bac");
    assert!(!out2[0].error);
}

#[test]
fn alternation_error_then_recovery() {
    let rule = LexerRule::Concat(
        Box::new(LexerRule::Alternate(Box::new(lit("a")), Box::new(lit("b")))),
        Box::new(LexerRule::Repeat(
            Box::new(LexerRule::Range('a', 'c')),
            2,
            Some(2),
        )),
    );
    let lexer = build(vec![("AB_CC", rule)]);
    let out = lexer.lex_input("dcc");
    assert!(out.len() >= 2);
    assert_eq!(out[0].name, "ERROR");
    assert_eq!(out[0].text, "d");
    assert_eq!(out[0].start, 0);
    assert_eq!(out[0].end, 1);
    assert!(out[0].error);
    assert_eq!(concat_texts(&out), "dcc");
}

#[test]
fn precedence_by_declaration_order() {
    let lexer = build(vec![
        ("IF", lit("if")),
        (
            "IDENT",
            LexerRule::Repeat(Box::new(LexerRule::Range('a', 'z')), 1, None),
        ),
    ]);
    let out = lexer.lex_input("if");
    assert_eq!(out.len(), 1);
    assert_eq!(out[0].name, "IF");
    assert_eq!(out[0].text, "if");
    assert!(!out[0].error);
}

#[test]
fn later_token_keeps_unclaimed_characters() {
    let lexer = build(vec![
        ("IF", lit("if")),
        (
            "IDENT",
            LexerRule::Repeat(Box::new(LexerRule::Range('a', 'z')), 1, None),
        ),
    ]);
    let out = lexer.lex_input("zebra");
    assert_eq!(out.len(), 1);
    assert_eq!(out[0].name, "IDENT");
    assert_eq!(out[0].text, "zebra");
}

#[test]
fn forward_progress_on_unmatched_character() {
    let lexer = build(vec![("A", lit("a"))]);
    let out = lexer.lex_input("!");
    assert_eq!(out.len(), 1);
    assert_eq!(out[0].name, "ERROR");
    assert_eq!(out[0].text, "!");
    assert_eq!(out[0].start, 0);
    assert_eq!(out[0].end, 1);
    assert!(out[0].error);
}

#[test]
fn exact_count_repetition_accepts_three() {
    let lexer = build(vec![(
        "THREE",
        LexerRule::Repeat(Box::new(LexerRule::Wildcard), 3, Some(3)),
    )]);
    let out = lexer.lex_input("xyz");
    assert_eq!(out.len(), 1);
    assert_eq!(out[0].name, "THREE");
    assert_eq!(out[0].text, "xyz");
    assert_eq!(out[0].start, 0);
    assert_eq!(out[0].end, 3);
    assert!(!out[0].error);
}

#[test]
fn exact_count_repetition_partial_is_error() {
    let lexer = build(vec![(
        "THREE",
        LexerRule::Repeat(Box::new(LexerRule::Wildcard), 3, Some(3)),
    )]);
    let out = lexer.lex_input("xy");
    assert_eq!(out.len(), 1);
    assert_eq!(out[0].name, "ERROR");
    assert_eq!(out[0].text, "xy");
    assert_eq!(out[0].start, 0);
    assert_eq!(out[0].end, 2);
    assert!(out[0].error);
}

#[test]
fn reconstruction_of_mixed_input() {
    let lexer = build(vec![
        ("IF", lit("if")),
        (
            "IDENT",
            LexerRule::Repeat(Box::new(LexerRule::Range('a', 'z')), 1, None),
        ),
    ]);
    let input = "if!zebra?if";
    let out = lexer.lex_input(input);
    assert_eq!(concat_texts(&out), input);
    assert!(out.iter().any(|t| t.error));
    assert!(out.iter().any(|t| !t.error));
}

#[test]
fn identical_token_lists_scan_identically() {
    let mk = || {
        build(vec![
            ("IF", lit("if")),
            (
                "IDENT",
                LexerRule::Repeat(Box::new(LexerRule::Range('a', 'z')), 1, None),
            ),
        ])
    };
    let l1 = mk();
    let l2 = mk();
    let out1 = l1.lex_input("ifxif zebra");
    let out2 = l2.lex_input("ifxif zebra");
    assert_eq!(out1, out2);
}

#[test]
fn spans_of_consecutive_tokens() {
    let lexer = build(vec![
        ("AB", lit("ab")),
        ("C", lit("c")),
    ]);
    let out = lexer.lex_input("abcab");
    assert_eq!(out.len(), 3);
    assert_eq!((out[0].start, out[0].end, out[0].name.as_str()), (0, 2, "AB"));
    assert_eq!((out[1].start, out[1].end, out[1].name.as_str()), (2, 3, "C"));
    assert_eq!((out[2].start, out[2].end, out[2].name.as_str()), (3, 5, "AB"));
}

#[test]
fn range_matches_every_digit() {
    let lexer = build(vec![("DIGIT", LexerRule::Range('0', '9'))]);
    for d in '0'..='9' {
        let s = d.to_string();
        let out = lexer.lex_input(&s);
        assert_eq!(out.len(), 1);
        assert_eq!(out[0].name, "DIGIT");
        assert_eq!(out[0].text, s);
    }
    let out = lexer.lex_input("a");
    assert_eq!(out[0].name, "ERROR");
}

#[test]
fn range_across_surrogate_gap() {
    let lexer = build(vec![("EDGE", LexerRule::Range('\u{D7FF}', '\u{E000}'))]);
    let out = lexer.lex_input("\u{D7FF}\u{E000}");
    assert_eq!(out.len(), 2);
    assert_eq!(out[0].name, "EDGE");
    assert_eq!(out[0].text, "\u{D7FF}");
    assert_eq!(out[1].name, "EDGE");
    assert_eq!(out[1].text, "\u{E000}");
    assert!(!out[0].error && !out[1].error);
}

#[test]
fn hand_built_table_scans_like_the_demo() {
    let states: Vec<Vec<(Match, Action)>> = vec![
        vec![(Match::Char('h'), Action::Shift(1))],
        vec![(Match::Char('e'), Action::Shift(2))],
        vec![(Match::Char('y'), Action::Shift(3))],
        vec![(Match::Other, Action::Accept(0))],
    ];
    let names = vec!["TOKEN_HEY".to_string()];
    let lexer = Lexer::new(&states, &names);
    let out = lexer.lex_input("heyheyy");
    assert_eq!(out.len(), 3);
    assert_eq!((out[0].name.as_str(), out[0].text.as_str()), ("TOKEN_HEY", "hey"));
    assert_eq!((out[1].name.as_str(), out[1].text.as_str()), ("TOKEN_HEY", "hey"));
    assert_eq!((out[2].name.as_str(), out[2].text.as_str()), ("ERROR", "y"));
    assert!(out[2].error);

    let lexer2 = Lexer::create(states, names);
    let out2 = lexer2.lex_input("heyheyy");
    assert_eq!(out, out2);
}

#[test]
fn empty_input_yields_no_tokens() {
    let lexer = build(vec![("A", lit("a"))]);
    let out = lexer.lex_input("");
    assert!(out.is_empty());
}

#[test]
fn bounded_repeat_stops_early_at_boundary() {
    let rule = LexerRule::Concat(
        Box::new(LexerRule::Repeat(
            Box::new(LexerRule::Range('a', 'a')),
            1,
            Some(3),
        )),
        Box::new(lit("b")),
    );
    let lexer = build(vec![("AS_B", rule)]);
    for input in ["ab", "aab", "aaab"] {
        let out = lexer.lex_input(input);
        assert_eq!(out.len(), 1, "input {:?}", input);
        assert_eq!(out[0].name, "AS_B");
        assert_eq!(out[0].text, input);
    }
    let out = lexer.lex_input("aaaab");
    assert!(out[0].error);
    assert_eq!(concat_texts(&out), "aaaab");
}

#[test]
fn unbounded_repeat_feeding_literal() {
    let rule = LexerRule::Concat(
        Box::new(LexerRule::Repeat(Box::new(LexerRule::Range('a', 'a')), 1, None)),
        Box::new(lit("b")),
    );
    let lexer = build(vec![("AS_B", rule)]);
    let out = lexer.lex_input("aaab");
    assert_eq!(out.len(), 1);
    assert_eq!(out[0].name, "AS_B");
    assert_eq!(out[0].text, "aaab");
}
