use std::hint::black_box;

use token_rules::{
    empty_token, process_rule, process_rules, str_to_tokens, token_from_string, tokens_structure,
    wrap, Token, TokenStructure,
};

fn token1() -> Token<'static> {
    token_from_string("Hi!", vec!["greeting", "exclam"])
}

fn token2() -> Token<'static> {
    token_from_string("-890", vec!["int", "neg_int"])
}

fn test_tokens() -> Vec<Token<'static>> {
    vec![token1(), token2()]
}

fn show(tokens: &[Token]) {
    for tok in tokens {
        println!("{}", tok.render());
    }
}

fn contents<'a>(tokens: &'a [Token<'a>]) -> Vec<&'a str> {
    tokens.iter().map(|t| t.content()).collect()
}

fn whitespace_rule(mut tokens: Vec<Token>) -> Option<Vec<Token>> {
    let ch = tokens[0].single_char().unwrap_or_default();
    if ch.is_whitespace() || ch == '\u{0}' {
        tokens[0].tags.push("ws");
    }
    Some(tokens)
}

fn letter_rule(mut tokens: Vec<Token>) -> Option<Vec<Token>> {
    if tokens[0].single_char().unwrap_or_default().is_alphabetic() {
        tokens[0].tags.push("letter");
    }
    Some(tokens)
}

fn word_rule(tokens: Vec<Token>) -> Option<Vec<Token>> {
    if tokens.last().unwrap_or(&empty_token()).has_tag("letter") {
        None
    } else if tokens.len() == 1 {
        Some(tokens)
    } else {
        Some(vec![
            wrap(tokens[0..tokens.len() - 1].to_vec(), vec!["word"]),
            tokens.last().unwrap().clone(),
        ])
    }
}

fn int_rule(tokens: Vec<Token>) -> Option<Vec<Token>> {
    match tokens_structure(&tokens) {
        TokenStructure::Single(tok) => {
            if tok.content() == "0" {
                Some(vec![wrap(tokens, vec!["int", "posInt"])])
            } else if tok.has_tag("digit") {
                None
            } else {
                Some(tokens)
            }
        }
        TokenStructure::Multiple => {
            if tokens.last().unwrap_or(&empty_token()).has_tag("digit") {
                None
            } else {
                Some(vec![
                    wrap(tokens[0..tokens.len() - 1].to_vec(), vec!["int", "posInt"]),
                    tokens.last().unwrap().clone(),
                ])
            }
        }
        TokenStructure::Empty => Some(tokens),
    }
}

fn remove_whitespace_rule(tokens: Vec<Token>) -> Option<Vec<Token>> {
    if tokens[0].has_tag("ws") {
        Some(vec![])
    } else {
        Some(tokens)
    }
}

fn digit_rule(mut tokens: Vec<Token>) -> Option<Vec<Token>> {
    if let TokenStructure::Single(tok) = tokens_structure(&tokens) {
        let ch = tok.single_char().unwrap_or_default();
        if ch.is_digit(10) {
            tokens[0].tags.push("digit");
            if ch != '0' {
                tokens[0].tags.push("nonzero");
            }
        }
    }
    Some(tokens)
}

fn ab_rule(tokens: Vec<Token>) -> Option<Vec<Token>> {
    match tokens_structure(&tokens) {
        TokenStructure::Single(tok) => {
            if tok.has_tag("a") {
                None
            } else {
                Some(tokens)
            }
        }
        TokenStructure::Multiple => {
            if tokens[1].has_tag("b") {
                Some(vec![wrap(tokens, vec!["c"])])
            } else {
                Some(tokens)
            }
        }
        TokenStructure::Empty => Some(tokens),
    }
}

fn word_rules() -> Vec<fn(Vec<Token>) -> Option<Vec<Token>>> {
    vec![whitespace_rule, letter_rule, word_rule, remove_whitespace_rule]
}

fn int_rules() -> Vec<fn(Vec<Token>) -> Option<Vec<Token>>> {
    vec![whitespace_rule, digit_rule, int_rule, remove_whitespace_rule]
}

#[test]
fn print_one_token() {
    println!("{}", token1().render());
}

#[test]
fn print_several_tokens() {
    show(&test_tokens());
}

#[test]
fn print_base_token_stream() {
    show(&str_to_tokens("This is a string."));
}

#[test]
fn apply_one_rule() {
    let mut body = str_to_tokens("A space");
    show(&body);
    process_rule(whitespace_rule, &mut body);
    show(&body);
}

#[test]
fn apply_ab() {
    let text = "a b blex ab abab";
    let mut body = str_to_tokens(text);
    process_rule(ab_rule, &mut body);
    show(&body);
}

#[test]
fn big_paragraph_performance() {
    let text = "The donkey than rams him.
        Oh my goodness, but the kangaroo jumps over.
        And it looks like the seagulls are going for it again!
        They're just hitting the tank!
        (To the penguins, attacking a T-Rex)
        Hit him with your penguin beaks!
        What are you doing out there?
        Looks like I gotta do everything myself...
        Come on, now I'm playing.
        Get over here, T-Rex. I'll beat you up.
        Now watch out for my spin attack...";
    let mut body = str_to_tokens(text);
    for _ in 0..1000 {
        black_box(process_rules(word_rules(), &mut body));
    }
}

#[test]
fn apply_ints() {
    let text = "123 040 k";
    let mut body = str_to_tokens(text);
    process_rules(int_rules(), &mut body);
    assert_eq!(
        body,
        vec![
            Token {
                body: text,
                indices: 0..3,
                tags: vec!["int", "posInt"]
            },
            Token {
                body: text,
                indices: 4..5,
                tags: vec!["int", "posInt"]
            },
            Token {
                body: text,
                indices: 5..7,
                tags: vec!["int", "posInt"]
            },
            Token {
                body: text,
                indices: 8..9,
                tags: vec!["k"]
            }
        ]
    );
}

#[test]
fn has_tag_test() {
    println!("{}", token_from_string("Hi", vec!["test"]).has_tag("test"));
    show(&str_to_tokens("a b blex ab abab"));
}

#[test]
fn word_grouping_scenario() {
    let text = "A space";
    let mut body = str_to_tokens(text);
    process_rules(word_rules(), &mut body);
    assert_eq!(contents(&body), vec!["A", "space"]);
    assert_eq!(body[0].tags, vec!["word"]);
    assert_eq!(body[1].tags, vec!["word"]);
    assert_eq!(body[1].indices, 2..7);
}

#[test]
fn integer_grouping_contents() {
    let mut body = str_to_tokens("123 040 k");
    process_rules(int_rules(), &mut body);
    assert_eq!(contents(&body), vec!["123", "0", "40", "k"]);
}

#[test]
fn ab_rule_merges_pairs() {
    let text = "a b ab";
    let mut body = str_to_tokens(text);
    process_rule(ab_rule, &mut body);
    assert_eq!(contents(&body), vec!["a", " ", "b", " ", "ab", ""]);
    assert_eq!(body[4].tags, vec!["c"]);
}

#[test]
fn structure_of_windows() {
    let none: Vec<Token> = vec![];
    assert!(matches!(tokens_structure(&none), TokenStructure::Empty));
    let one = vec![token1()];
    match tokens_structure(&one) {
        TokenStructure::Single(t) => assert_eq!(*t, token1()),
        _ => panic!("expected a single token"),
    }
    let two = test_tokens();
    assert!(matches!(tokens_structure(&two), TokenStructure::Multiple));
}

#[test]
fn tokenize_appends_sentinel() {
    let body = str_to_tokens("");
    assert_eq!(body.len(), 1);
    assert_eq!(body[0], empty_token());

    let body = str_to_tokens("ab");
    assert_eq!(body.len(), 3);
    assert_eq!(body[0].indices, 0..1);
    assert_eq!(body[0].tags, vec!["a"]);
    assert_eq!(body[1].content(), "b");
    assert_eq!(body[2].content(), "");
    assert!(body[2].tags.is_empty());
}

#[test]
fn tokenize_counts_characters() {
    let body = str_to_tokens("h\u{e9}!");
    assert_eq!(body.len(), 4);
    assert_eq!(body[1].content(), "\u{e9}");
    assert_eq!(body[1].tags, vec!["\u{e9}"]);
    assert_eq!(body[2].indices, 2..3);
    assert_eq!(body[2].content(), "!");
}

#[test]
fn identity_rule_changes_nothing() {
    let mut body = str_to_tokens("x y");
    let before = body.clone();
    process_rule(|w| Some(w), &mut body);
    assert_eq!(body, before);
}

#[test]
fn deleting_rule_on_short_body() {
    let mut body = vec![token1()];
    process_rule(|_w| Some(vec![]), &mut body);
    assert!(body.is_empty());
    let mut body: Vec<Token> = vec![];
    process_rule(|_w| Some(vec![]), &mut body);
    assert!(body.is_empty());
}

#[test]
fn deleting_rule_keeps_odd_positions() {
    let mut body = str_to_tokens("abcd");
    process_rule(|_w| Some(vec![]), &mut body);
    assert_eq!(contents(&body), vec!["b", "d"]);
}

#[test]
fn undecided_rule_skips_every_position() {
    let mut body = str_to_tokens("abc");
    let before = body.clone();
    process_rule(|_w| None, &mut body);
    assert_eq!(body, before);
}

#[test]
fn wrap_joins_run() {
    let text = "hello world";
    let body = str_to_tokens(text);
    let merged = wrap(body[6..11].to_vec(), vec!["word", "noun"]);
    assert_eq!(merged.content(), "world");
    assert_eq!(merged.indices, 6..11);
    assert_eq!(merged.tags, vec!["word", "noun"]);
    assert_eq!(wrap(vec![], vec!["x"]), empty_token());
}

#[test]
fn has_tag_matches_exactly() {
    let t = token1();
    assert!(t.has_tag("greeting"));
    assert!(t.has_tag("exclam"));
    assert!(!t.has_tag("greet"));
    assert!(!t.has_tag(""));
}

#[test]
fn single_char_reads_first_character() {
    assert_eq!(token1().single_char(), Some('H'));
    assert_eq!(empty_token().single_char(), None);
    let body = str_to_tokens("xyz");
    assert_eq!(body[2].single_char(), Some('z'));
}

#[test]
fn token_from_string_covers_content() {
    let t = token_from_string("caf\u{e9}", vec!["w"]);
    assert_eq!(t.indices, 0..4);
    assert_eq!(t.content(), "caf\u{e9}");
}

#[test]
fn default_is_empty_token() {
    assert_eq!(Token::default(), empty_token());
    assert_eq!(empty_token().content(), "");
}

#[test]
fn render_quotes_content_and_lists_tags() {
    assert_eq!(token1().render(), "\"Hi!\": greeting; exclam; ");
    assert_eq!(token_from_string("a\nb", vec![]).render(), "\"a\\nb\": ");
}

#[test]
fn render_with_quoted_lists_tags() {
    let t = token_from_string("x", vec!["a", "b"]);
    assert_eq!(t.render_with_quoted("<x>"), "<x>: a; b; ");
    assert_eq!(empty_token().render_with_quoted("\"\""), "\"\": ");
}
