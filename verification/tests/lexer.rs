use termrank::chars::{classify, whitespace, CharClass};
use termrank::lexer::{tokenize, Lexer};

fn chars(text: &str) -> Vec<char> {
    text.chars().collect()
}

fn tokens_of(text: &str) -> Vec<String> {
    tokenize(&chars(text))
}

#[test]
fn empty_input_has_no_tokens() {
    assert_eq!(tokens_of(""), Vec::<String>::new());
    let content = chars("");
    let mut lexer = Lexer::new(&content);
    assert_eq!(lexer.next_token(), None);
    assert_eq!(lexer.next_token(), None);
}

#[test]
fn whitespace_only_has_no_tokens() {
    assert_eq!(tokens_of(" \t\r\n\u{a0}\u{3000} "), Vec::<String>::new());
}

#[test]
fn letters_then_digits_are_one_word() {
    assert_eq!(tokens_of("abc123"), vec!["ABC123"]);
}

#[test]
fn space_separates_word_and_number() {
    assert_eq!(tokens_of("abc 123"), vec!["ABC", "123"]);
}

#[test]
fn digits_then_letters_are_two_tokens() {
    assert_eq!(tokens_of("12ab"), vec!["12", "AB"]);
}

#[test]
fn punctuation_is_one_token_each() {
    assert_eq!(tokens_of("a,b!?"), vec!["A", ",", "B", "!", "?"]);
    assert_eq!(tokens_of("(x)"), vec!["(", "X", ")"]);
    assert_eq!(tokens_of("--"), vec!["-", "-"]);
}

#[test]
fn only_ascii_letters_change_case() {
    assert_eq!(tokens_of("straße"), vec!["STRAßE"]);
    assert_eq!(tokens_of("été"), vec!["éTé"]);
    assert_eq!(tokens_of("Zz"), vec!["ZZ"]);
}

#[test]
fn next_token_walks_forward() {
    let content = chars("  the cat7 42x ;");
    let mut lexer = Lexer::new(&content);
    assert_eq!(lexer.next_token(), Some("THE".to_string()));
    assert_eq!(lexer.next_token(), Some("CAT7".to_string()));
    assert_eq!(lexer.next_token(), Some("42".to_string()));
    assert_eq!(lexer.next_token(), Some("X".to_string()));
    assert_eq!(lexer.next_token(), Some(";".to_string()));
    assert_eq!(lexer.next_token(), None);
}

#[test]
fn chop_and_trim_move_the_view() {
    let content = chars("  ab12 ");
    let mut lexer = Lexer::new(&content);
    lexer.trim_left();
    let first: String = lexer.chop(1).iter().collect();
    assert_eq!(first, "a");
    let rest: String = lexer.chop_while(|c: &char| *c != ' ').iter().collect();
    assert_eq!(rest, "b12");
    let none: String = lexer.chop_while(|c: &char| *c == 'q').iter().collect();
    assert_eq!(none, "");
    assert_eq!(lexer.next_token(), None);
}

#[test]
fn tokens_are_solid() {
    let text = "Hello,\tworld! 3.14\u{2003}x\u{85}y  \u{1680}z 1a2b";
    let list = tokens_of(text);
    assert!(!list.is_empty());
    for token in &list {
        assert!(!token.is_empty());
        assert!(token.chars().all(|c| !c.is_whitespace()));
    }
}

#[test]
fn whitespace_is_the_unicode_property() {
    let mut n: u32 = 0;
    while n <= 0x10ffff {
        if let Some(c) = char::from_u32(n) {
            assert_eq!(whitespace(c), c.is_whitespace());
        }
        n += 1;
    }
}

#[test]
fn classes_follow_the_order_space_digit_letter() {
    assert_eq!(classify(' '), CharClass::Space);
    assert_eq!(classify('\n'), CharClass::Space);
    assert_eq!(classify('0'), CharClass::Digit);
    assert_eq!(classify('7'), CharClass::Digit);
    assert_eq!(classify('9'), CharClass::Digit);
    assert_eq!(classify('q'), CharClass::Letter);
    assert_eq!(classify('Q'), CharClass::Letter);
    assert_eq!(classify('京'), CharClass::Letter);
    assert_eq!(classify('\u{2167}'), CharClass::Letter);
    assert_eq!(classify('-'), CharClass::Other);
    assert_eq!(classify('/'), CharClass::Other);
    assert_eq!(classify(':'), CharClass::Other);
    assert_eq!(classify('@'), CharClass::Other);
    assert_eq!(classify('['), CharClass::Other);
    assert_eq!(classify('`'), CharClass::Other);
    assert_eq!(classify('{'), CharClass::Other);
    assert_eq!(classify('\u{be}'), CharClass::Other);
    assert_eq!(classify('\u{663}'), CharClass::Other);
    assert_eq!(classify('💝'), CharClass::Other);
}

#[test]
fn letters_are_the_alphabetic_characters() {
    let mut n: u32 = 0;
    while n <= 0x10ffff {
        if let Some(c) = char::from_u32(n) {
            let letter = !c.is_whitespace() && !c.is_ascii_digit() && c.is_alphabetic();
            assert_eq!(classify(c) == CharClass::Letter, letter);
            assert_eq!(classify(c) == CharClass::Digit, c.is_ascii_digit());
        }
        n += 1;
    }
}

#[test]
fn number_is_a_run_of_decimal_digits() {
    assert_eq!(tokens_of("1\u{be}"), vec!["1", "\u{be}"]);
    assert_eq!(tokens_of("12\u{b2}3"), vec!["12", "\u{b2}", "3"]);
    assert_eq!(tokens_of("4\u{663}"), vec!["4", "\u{663}"]);
    assert_eq!(tokens_of("007"), vec!["007"]);
}

#[test]
fn alphabetic_numeral_starts_a_word() {
    assert_eq!(tokens_of("\u{2167}a"), vec!["\u{2167}A"]);
    assert_eq!(tokens_of("a\u{2167}1"), vec!["A\u{2167}1"]);
    assert_eq!(tokens_of("x\u{be}y"), vec!["X", "\u{be}", "Y"]);
}
