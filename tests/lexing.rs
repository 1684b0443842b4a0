use docsearch::keyed::{chars_eq, find_key};
use docsearch::lexer::{char_in_class, tokenize, CharClass, Lexer, TokenKind};

fn chars(s: &str) -> Vec<char> {
    s.chars().collect()
}

fn kinds_and_texts(s: &str) -> Vec<(TokenKind, String)> {
    let content = chars(s);
    tokenize(&content)
        .iter()
        .map(|t| (t.kind, t.text.iter().collect::<String>()))
        .collect()
}

#[test]
fn tokenize_mixed_input() {
    assert_eq!(
        kinds_and_texts("abc123 456xyz !"),
        vec![
            (TokenKind::Word, "abc123".to_string()),
            (TokenKind::Numeric, "456".to_string()),
            (TokenKind::Word, "xyz".to_string()),
            (TokenKind::Symbol, "!".to_string()),
        ]
    );
}

#[test]
fn digit_run_stops_before_letters() {
    assert_eq!(
        kinds_and_texts("123abc"),
        vec![
            (TokenKind::Numeric, "123".to_string()),
            (TokenKind::Word, "abc".to_string()),
        ]
    );
}

#[test]
fn symbols_are_single_characters() {
    assert_eq!(
        kinds_and_texts("a+=b"),
        vec![
            (TokenKind::Word, "a".to_string()),
            (TokenKind::Symbol, "+".to_string()),
            (TokenKind::Symbol, "=".to_string()),
            (TokenKind::Word, "b".to_string()),
        ]
    );
}

#[test]
fn non_ascii_characters_are_symbols() {
    assert_eq!(
        kinds_and_texts("caf\u{e9}"),
        vec![
            (TokenKind::Word, "caf".to_string()),
            (TokenKind::Symbol, "\u{e9}".to_string()),
        ]
    );
}

#[test]
fn empty_and_blank_inputs_have_no_tokens() {
    assert!(kinds_and_texts("").is_empty());
    assert!(kinds_and_texts(" \t\r\n\u{b}\u{c}").is_empty());
}

#[test]
fn tokens_never_empty_and_rebuild_input_without_spaces() {
    let input = "  x1 22y,\tz  9 ";
    let toks = kinds_and_texts(input);
    assert!(toks.iter().all(|(_, t)| !t.is_empty()));
    let joined: String = toks.iter().map(|(_, t)| t.as_str()).collect();
    let stripped: String = input.chars().filter(|c| !c.is_ascii_whitespace()).collect();
    assert_eq!(joined, stripped);
}

#[test]
fn lexer_steps() {
    let content = chars("  ab12 7");
    let mut lexer = Lexer::new(&content);
    lexer.trim_left();
    let word = lexer.chop_while(CharClass::Alnum);
    assert_eq!(word.iter().collect::<String>(), "ab12");
    let t = lexer.next_token().unwrap();
    assert_eq!(t.kind, TokenKind::Numeric);
    assert_eq!(t.text, &['7']);
    assert!(lexer.next_token().is_none());
}

#[test]
fn lexer_chop_takes_prefix() {
    let content = chars("hello");
    let mut lexer = Lexer::new(&content);
    assert_eq!(lexer.chop(2), &['h', 'e']);
    assert_eq!(lexer.chop(3), &['l', 'l', 'o']);
    assert!(lexer.next_token().is_none());
}

#[test]
fn character_classes() {
    assert!(char_in_class('\u{b}', CharClass::Space));
    assert!(!char_in_class('a', CharClass::Space));
    assert!(char_in_class('5', CharClass::Digit));
    assert!(!char_in_class('x', CharClass::Digit));
    assert!(char_in_class('Z', CharClass::Alnum));
    assert!(!char_in_class('_', CharClass::Alnum));
}

#[test]
fn keyed_helpers() {
    assert!(chars_eq(&['a', 'b'], &['a', 'b']));
    assert!(!chars_eq(&['a', 'b'], &['a', 'c']));
    assert!(!chars_eq(&['a'], &['a', 'b']));
    let entries = vec![(chars("X"), 1usize), (chars("Y"), 2usize)];
    assert_eq!(find_key(&entries, &['Y']), Some(1));
    assert_eq!(find_key(&entries, &['Z']), None);
}

#[test]
fn next_token_leaves_what_follows_the_token() {
    let content = chars("123abc");
    let mut lexer = Lexer::new(&content);
    assert_eq!(lexer.next_token().unwrap().text, &['1', '2', '3']);
    assert_eq!(lexer.chop(3), &['a', 'b', 'c']);
    assert!(lexer.next_token().is_none());

    let content = chars("! x");
    let mut lexer = Lexer::new(&content);
    assert_eq!(lexer.next_token().unwrap().text, &['!']);
    assert_eq!(lexer.chop(2), &[' ', 'x']);

    let content = chars("1 2");
    let mut lexer = Lexer::new(&content);
    assert_eq!(lexer.next_token().unwrap().text, &['1']);
    assert_eq!(lexer.chop(1), &[' ']);
}

#[test]
fn next_token_stays_ended() {
    let content = chars("abc123  ");
    let mut lexer = Lexer::new(&content);
    assert_eq!(lexer.next_token().unwrap().kind, TokenKind::Word);
    assert!(lexer.next_token().is_none());
    assert!(lexer.next_token().is_none());
    assert!(lexer.chop(0).is_empty());
}
