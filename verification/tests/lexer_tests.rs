use pratt_calc::lexer::{Lexer, Span, Token};

#[derive(Debug, PartialEq)]
enum Lexeme {
    Number(f64),
    Plus,
    Minus,
    Asterisk,
    Slash,
    LParen,
    RParen,
}

fn value(input: &[u8], span: Span) -> f64 {
    std::str::from_utf8(&input[span.start..span.end]).unwrap().parse::<f64>().unwrap()
}

fn lexeme(input: &[u8], token: Option<Token>) -> Option<Lexeme> {
    Some(match token? {
        Token::Number(span) => Lexeme::Number(value(input, span)),
        Token::Plus => Lexeme::Plus,
        Token::Minus => Lexeme::Minus,
        Token::Asterisk => Lexeme::Asterisk,
        Token::Slash => Lexeme::Slash,
        Token::LParen => Lexeme::LParen,
        Token::RParen => Lexeme::RParen,
    })
}

fn all_tokens(input: &[u8]) -> Vec<Token> {
    let mut lexer = Lexer::new(input);
    let mut tokens = Vec::new();
    while let Some(token) = lexer.token() {
        tokens.push(token);
    }
    tokens
}

#[test]
fn test_lexer() {
    let input = "15-2.0/4.56-3.14+100".as_bytes();
    let mut lexer = Lexer::new(input);
    assert_eq!(lexeme(input, lexer.token()), Some(Lexeme::Number(15.0_f64)));
    assert_eq!(lexeme(input, lexer.token()), Some(Lexeme::Minus));
    assert_eq!(lexeme(input, lexer.token()), Some(Lexeme::Number(2.0_f64)));
    assert_eq!(lexeme(input, lexer.token()), Some(Lexeme::Slash));
    assert_eq!(lexeme(input, lexer.token()), Some(Lexeme::Number(4.56_f64)));
    assert_eq!(lexeme(input, lexer.token()), Some(Lexeme::Minus));
    assert_eq!(lexeme(input, lexer.token()), Some(Lexeme::Number(3.14_f64)));
    assert_eq!(lexeme(input, lexer.token()), Some(Lexeme::Plus));
    assert_eq!(lexeme(input, lexer.token()), Some(Lexeme::Number(100.0_f64)));
    assert_eq!(lexeme(input, lexer.token()), None);
}

#[test]
fn lexer_reports_the_range_of_each_number() {
    let input = b"15-2.0/4.56-3.14+100";
    assert_eq!(
        all_tokens(input),
        vec![
            Token::Number(Span { start: 0, end: 2 }),
            Token::Minus,
            Token::Number(Span { start: 3, end: 6 }),
            Token::Slash,
            Token::Number(Span { start: 7, end: 11 }),
            Token::Minus,
            Token::Number(Span { start: 12, end: 16 }),
            Token::Plus,
            Token::Number(Span { start: 17, end: 20 }),
        ]
    );
}

#[test]
fn lexer_yields_parentheses() {
    let input = "15-2.0/(4.56-3.14)+100".as_bytes();
    let mut lexer = Lexer::new(input);
    assert_eq!(lexeme(input, lexer.token()), Some(Lexeme::Number(15.0_f64)));
    assert_eq!(lexeme(input, lexer.token()), Some(Lexeme::Minus));
    assert_eq!(lexeme(input, lexer.token()), Some(Lexeme::Number(2.0_f64)));
    assert_eq!(lexeme(input, lexer.token()), Some(Lexeme::Slash));
    assert_eq!(lexeme(input, lexer.token()), Some(Lexeme::LParen));
    assert_eq!(lexeme(input, lexer.token()), Some(Lexeme::Number(4.56_f64)));
    assert_eq!(lexeme(input, lexer.token()), Some(Lexeme::Minus));
    assert_eq!(lexeme(input, lexer.token()), Some(Lexeme::Number(3.14_f64)));
    assert_eq!(lexeme(input, lexer.token()), Some(Lexeme::RParen));
    assert_eq!(lexeme(input, lexer.token()), Some(Lexeme::Plus));
    assert_eq!(lexeme(input, lexer.token()), Some(Lexeme::Number(100.0_f64)));
    assert_eq!(lexeme(input, lexer.token()), None);
}

#[test]
fn lexer_maps_each_symbol_to_its_token() {
    assert_eq!(
        all_tokens(b"+-*/()"),
        vec![
            Token::Plus,
            Token::Minus,
            Token::Asterisk,
            Token::Slash,
            Token::LParen,
            Token::RParen,
        ]
    );
}

#[test]
fn lexer_yields_nothing_on_empty_input() {
    let mut lexer = Lexer::new(b"");
    assert_eq!(lexer.token(), None);
    assert_eq!(lexer.token(), None);
}

#[test]
fn lexer_rejects_a_run_with_two_points() {
    let mut lexer = Lexer::new(b"1.2.3");
    assert_eq!(lexer.token(), None);
    // the whole run was consumed: the input has ended
    assert_eq!(lexer.curr(), None);
    assert_eq!(lexer.token(), None);
}

#[test]
fn lexer_rejects_a_run_without_digits() {
    let mut lexer = Lexer::new(b".+1");
    assert_eq!(lexer.token(), None);
    assert_eq!(lexer.token(), Some(Token::Plus));
    assert_eq!(lexer.token(), Some(Token::Number(Span { start: 2, end: 3 })));
    assert_eq!(lexer.token(), None);
}

#[test]
fn lexer_accepts_a_point_at_either_end() {
    assert_eq!(all_tokens(b"5."), vec![Token::Number(Span { start: 0, end: 2 })]);
    assert_eq!(all_tokens(b".5"), vec![Token::Number(Span { start: 0, end: 2 })]);
    assert_eq!(value(b"5.", Span { start: 0, end: 2 }), 5.0);
    assert_eq!(value(b".5", Span { start: 0, end: 2 }), 0.5);
}

#[test]
fn lexer_accepts_exactly_the_runs_that_spell_a_float() {
    let runs: [&[u8]; 14] = [
        b"0", b"15", b"2.0", b"4.56", b"5.", b".5", b".", b"..", b"1.2.3", b"1..", b"..1",
        b"00.00", b"1.2.", b"123456789012345678901234567890.5",
    ];
    for run in runs {
        let accepted = all_tokens(run).len() == 1;
        let spells = std::str::from_utf8(run).unwrap().parse::<f64>().is_ok();
        assert_eq!(accepted, spells, "{:?}", std::str::from_utf8(run));
    }
}

#[test]
fn lexer_skips_one_byte_it_does_not_know() {
    let mut lexer = Lexer::new(b"1 2a3");
    assert_eq!(lexer.token(), Some(Token::Number(Span { start: 0, end: 1 })));
    assert_eq!(lexer.token(), None);
    assert_eq!(lexer.token(), Some(Token::Number(Span { start: 2, end: 3 })));
    assert_eq!(lexer.token(), None);
    assert_eq!(lexer.token(), Some(Token::Number(Span { start: 4, end: 5 })));
    assert_eq!(lexer.token(), None);
    assert_eq!(lexer.token(), None);
}

#[test]
fn lexer_makes_progress_on_every_call() {
    let input = b"1+x.y*(22)/ 3..4-";
    let mut lexer = Lexer::new(input);
    let mut calls = 0;
    while lexer.curr().is_some() {
        lexer.token();
        calls += 1;
        assert!(calls <= input.len());
    }
    assert_eq!(lexer.token(), None);
}

#[test]
fn lexer_cursor_steps() {
    let mut lexer = Lexer::new(b"1.");
    assert_eq!(lexer.curr(), Some(&b'1'));
    assert_eq!(lexer.peek(), Some(&b'.'));
    lexer.next();
    assert_eq!(lexer.curr(), Some(&b'.'));
    assert_eq!(lexer.peek(), None);
    lexer.next();
    assert_eq!(lexer.curr(), None);
    assert_eq!(lexer.peek(), None);
    lexer.next();
    assert_eq!(lexer.curr(), None);
}

#[test]
fn lexer_classifies_numeric_bytes() {
    for c in 0..=255u8 {
        assert_eq!(Lexer::is_number(c), c.is_ascii_digit() || c == b'.');
    }
}

#[test]
fn two_lexers_over_the_same_bytes_agree() {
    let input = b"15-2.0/(4.56-3.14)+100";
    assert_eq!(all_tokens(input), all_tokens(&input.to_vec()));
}
