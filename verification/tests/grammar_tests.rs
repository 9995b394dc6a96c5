use pratt_calc::lexer::{Lexer, Token};
use pratt_calc::parser::{parse_input, Expr, OperatorKind, Parser};
use pratt_calc::precedence::Precedence;

fn tokens_of(input: &[u8]) -> Vec<Token> {
    let mut lexer = Lexer::new(input);
    let mut tokens = Vec::new();
    while let Some(token) = lexer.token() {
        tokens.push(token);
    }
    tokens
}

fn sign(operator: OperatorKind) -> Token {
    match operator {
        OperatorKind::Add => Token::Plus,
        OperatorKind::Subtract => Token::Minus,
        OperatorKind::Multiply => Token::Asterisk,
        OperatorKind::Divide => Token::Slash,
    }
}

// The tokens of a tree in reading order.
fn spelling(expr: &Expr, out: &mut Vec<Token>) {
    match expr {
        Expr::NumberLiteral(span) => out.push(Token::Number(*span)),
        Expr::UnaryExpr { operator, operand } => {
            out.push(sign(*operator));
            spelling(operand, out);
        }
        Expr::BinaryExpr { left, operator, right } => {
            spelling(left, out);
            out.push(sign(*operator));
            spelling(right, out);
        }
    }
}

// The bytes that the tokens spell, one after the other.
fn text(tokens: &[Token], input: &[u8]) -> Vec<u8> {
    let mut out = Vec::new();
    for token in tokens {
        match token {
            Token::Number(span) => out.extend_from_slice(&input[span.start..span.end]),
            Token::Plus => out.push(b'+'),
            Token::Minus => out.push(b'-'),
            Token::Asterisk => out.push(b'*'),
            Token::Slash => out.push(b'/'),
            Token::LParen => out.push(b'('),
            Token::RParen => out.push(b')'),
        }
    }
    out
}

fn root_level(expr: &Expr) -> u8 {
    match expr {
        Expr::BinaryExpr { operator, .. } => Parser::token_precedence(&sign(*operator)).rank(),
        _ => Precedence::Prefix.rank(),
    }
}

fn standard(expr: &Expr) -> bool {
    match expr {
        Expr::NumberLiteral(_) => true,
        Expr::UnaryExpr { operator, operand } => {
            *operator == OperatorKind::Subtract
                && standard(operand)
                && !matches!(**operand, Expr::BinaryExpr { .. })
        }
        Expr::BinaryExpr { left, operator, right } => {
            let level = Parser::token_precedence(&sign(*operator)).rank();
            standard(left) && standard(right) && root_level(left) >= level && root_level(right) > level
        }
    }
}

const PLAIN: [&[u8]; 12] = [
    b"7",
    b"-7",
    b"2+8/4",
    b"2-3-4",
    b"-5+2",
    b"15-2.0/4.56-3.14+100",
    b"1*2*3*4",
    b"1+2*3-4/5+6",
    b"1/2-3*4+5",
    b".5*5.",
    b"8/4/2*3-1-1+9",
    b"0.25+0.75",
];

#[test]
fn a_plain_expression_parses_to_a_standard_tree_that_spells_it() {
    for input in PLAIN {
        let tree = parse_input(input).expect("a plain expression parses");
        assert!(standard(&tree), "{:?}", std::str::from_utf8(input));
        let mut spelled = Vec::new();
        spelling(&tree, &mut spelled);
        assert_eq!(spelled, tokens_of(input));
        assert_eq!(text(&spelled, input), input.to_vec());
    }
}

#[test]
fn minus_signs_may_follow_an_operator() {
    let inputs: [&[u8]; 5] = [b"2*-3", b"--2", b"2--3", b"-2*-3+-4", b"1/---2"];
    for input in inputs {
        let tree = parse_input(input).expect("a well-formed expression parses");
        assert!(standard(&tree));
        let mut spelled = Vec::new();
        spelling(&tree, &mut spelled);
        assert_eq!(spelled, tokens_of(input));
        assert_eq!(text(&spelled, input), input.to_vec());
    }
}

#[test]
fn whatever_parses_is_standard_and_spells_the_tokens_it_took() {
    let inputs: [&[u8]; 8] =
        [b"2 3", b"2)", b"1+2 *3", b"1*2+3$", b"4(5)", b"-1-2)3", b"6*7a", b"1-2.+3 4.5.6"];
    for input in inputs {
        let tree = parse_input(input).expect("the input begins with an expression");
        assert!(standard(&tree));
        let mut spelled = Vec::new();
        spelling(&tree, &mut spelled);
        let tokens = tokens_of(input);
        assert!(spelled.len() <= tokens.len());
        assert_eq!(spelled[..], tokens[..spelled.len()]);
    }
}

#[test]
fn the_tokens_spell_the_input_up_to_the_first_gap() {
    let inputs: [(&[u8], usize); 7] = [
        (b"15-2.0/(4.56-3.14)+100", 22),
        (b"1+2 *3", 3),
        (b"", 0),
        (b"a+1", 0),
        (b"1.2.3", 0),
        (b"12+1.2.3", 3),
        (b"(.5)*", 5),
    ];
    for (input, end) in inputs {
        let tokens = tokens_of(input);
        assert_eq!(text(&tokens, input), input[..end].to_vec());
        assert!(tokens.len() <= input.len());
    }
}

#[test]
fn operators_and_their_tokens_stand_for_each_other() {
    let operators =
        [OperatorKind::Add, OperatorKind::Subtract, OperatorKind::Multiply, OperatorKind::Divide];
    for operator in operators {
        assert_eq!(Parser::token_operator(&sign(operator)), Some(operator));
        assert!(Parser::token_precedence(&sign(operator)) > Precedence::Lowest);
        assert!(Parser::token_precedence(&sign(operator)) < Precedence::Prefix);
    }
}
