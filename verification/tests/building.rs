use lexgen::build_lexer;
use lexgen::generate_fsa_for_token;
use lexgen::state_count;
use lexgen::BuildError;
use lexgen::LexerRule;

fn lit(s: &str) -> LexerRule {
    LexerRule::Literal(s.chars().collect())
}

fn named(tokens: Vec<(&str, LexerRule)>) -> Vec<(String, LexerRule)> {
    tokens
        .into_iter()
        .map(|(n, r)| (n.to_string(), r))
        .collect()
}

#[test]
fn state_count_matches_compiled_states() {
    let rules = vec![
        LexerRule::Wildcard,
        lit("hey"),
        LexerRule::Range('a', 'z'),
        LexerRule::Repeat(Box::new(LexerRule::Range('0', '9')), 2, Some(5)),
        LexerRule::Repeat(Box::new(lit("ab")), 1, None),
        LexerRule::Concat(Box::new(lit("a")), Box::new(LexerRule::Wildcard)),
        LexerRule::Alternate(Box::new(lit("ab")), Box::new(lit("cd"))),
        LexerRule::Concat(
            Box::new(LexerRule::Alternate(Box::new(lit("a")), Box::new(lit("b")))),
            Box::new(LexerRule::Repeat(Box::new(LexerRule::Range('a', 'c')), 2, Some(2))),
        ),
    ];
    for rule in &rules {
        // A token's automaton is the compiled rule plus one accept state.
        let fsa = generate_fsa_for_token(0, rule, 1);
        assert_eq!(fsa.len(), state_count(rule) + 1);
    }
}

#[test]
fn exact_state_counts_per_variant() {
    assert_eq!(state_count(&LexerRule::Wildcard), 1);
    assert_eq!(state_count(&lit("hey")), 3);
    assert_eq!(state_count(&LexerRule::Range('a', 'z')), 1);
    assert_eq!(
        state_count(&LexerRule::Repeat(Box::new(lit("ab")), 2, Some(5))),
        10
    );
    assert_eq!(
        state_count(&LexerRule::Repeat(Box::new(lit("ab")), 2, None)),
        6
    );
    assert_eq!(
        state_count(&LexerRule::Concat(Box::new(lit("ab")), Box::new(lit("c")))),
        3
    );
    assert_eq!(
        state_count(&LexerRule::Alternate(Box::new(lit("ab")), Box::new(lit("c")))),
        3
    );
}

#[test]
fn inverted_range_is_malformed() {
    let r = build_lexer(&named(vec![("BAD", LexerRule::Range('z', 'a'))]));
    assert_eq!(r.err(), Some(BuildError::MalformedRule { token: 0 }));
}

#[test]
fn empty_literal_is_malformed() {
    let r = build_lexer(&named(vec![("OK", lit("a")), ("BAD", lit(""))]));
    assert_eq!(r.err(), Some(BuildError::MalformedRule { token: 1 }));
}

#[test]
fn inverted_repeat_bounds_are_malformed() {
    let r = build_lexer(&named(vec![(
        "BAD",
        LexerRule::Repeat(Box::new(lit("a")), 3, Some(2)),
    )]));
    assert_eq!(r.err(), Some(BuildError::MalformedRule { token: 0 }));
}

#[test]
fn zero_width_token_is_malformed() {
    let r = build_lexer(&named(vec![(
        "BAD",
        LexerRule::Repeat(Box::new(lit("a")), 0, None),
    )]));
    assert_eq!(r.err(), Some(BuildError::MalformedRule { token: 0 }));
}

#[test]
fn zero_count_repeat_is_malformed() {
    let r = build_lexer(&named(vec![(
        "BAD",
        LexerRule::Repeat(Box::new(lit("a")), 0, Some(0)),
    )]));
    assert_eq!(r.err(), Some(BuildError::MalformedRule { token: 0 }));
}

#[test]
fn oversized_rule_is_rejected() {
    let huge = LexerRule::Repeat(
        Box::new(LexerRule::Repeat(
            Box::new(LexerRule::Repeat(
                Box::new(LexerRule::Wildcard),
                u32::MAX,
                Some(u32::MAX),
            )),
            u32::MAX,
            Some(u32::MAX),
        )),
        u32::MAX,
        Some(u32::MAX),
    );
    let r = build_lexer(&named(vec![("HUGE", huge)]));
    assert_eq!(r.err(), Some(BuildError::TooLarge { token: 0 }));
}

#[test]
fn first_offending_token_is_reported() {
    let r = build_lexer(&named(vec![
        ("OK", lit("a")),
        ("BAD1", LexerRule::Range('9', '0')),
        ("BAD2", lit("")),
    ]));
    assert_eq!(r.err(), Some(BuildError::MalformedRule { token: 1 }));
}

#[test]
fn empty_token_list_builds() {
    let lexer = build_lexer(&named(vec![])).expect("empty list builds");
    let out = lexer.lex_input("x");
    assert_eq!(out.len(), 1);
    assert_eq!(out[0].name, "ERROR");
    assert_eq!(out[0].text, "x");
}
