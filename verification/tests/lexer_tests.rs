use minilang::lexer::{BuiltinKeyword, Lexer, LexError, NumberLit, Token};
use minilang::scanner::Scanner;

#[test]
fn hex_literal() {
    let mut lx = Lexer::new("0x1F".to_string());
    let toks = lx.lex().unwrap();
    assert_eq!(toks.len(), 2);
    match &toks[0] {
        Token::Number(NumberLit::Hex(v)) => {
            assert_eq!(*v, 31);
            assert_eq!(*v as f64, 31.0);
        }
        other => panic!("expected a hex number token, got {:?}", other),
    }
    assert_eq!(toks[1], Token::EOF);
}

#[test]
fn escape_decoding() {
    let mut lx = Lexer::new("\"a\\nb\"".to_string());
    let toks = lx.lex().unwrap();
    assert_eq!(toks[0], Token::Str("a\nb".to_string()));
}

#[test]
fn unterminated_string() {
    let mut lx = Lexer::new("\"abc".to_string());
    assert_eq!(lx.lex(), Err(LexError::UnterminatedString));
}

#[test]
fn unknown_escape() {
    let mut lx = Lexer::new("\"a\\qb\"".to_string());
    assert_eq!(lx.lex(), Err(LexError::UnknownEscapeSequence('q')));
}

#[test]
fn unexpected_character() {
    let mut lx = Lexer::new("1 @".to_string());
    assert_eq!(lx.lex(), Err(LexError::UnexpectedCharacter('@', 2)));
}

#[test]
fn invalid_numeric_literal() {
    let mut lx = Lexer::new("1.2.3".to_string());
    assert_eq!(
        lx.lex(),
        Err(LexError::InvalidNumericLiteral("1.2.3".to_string()))
    );
}

#[test]
fn let_statement_tokens() {
    let mut lx = Lexer::new("let x = 10; x += 100;".to_string());
    let toks = lx.lex().unwrap();
    assert_eq!(toks.len(), 10);
    assert_eq!(toks[0], Token::Keyword(BuiltinKeyword::Let));
    assert_eq!(toks[1], Token::Identifier("x".to_string()));
    assert_eq!(toks[2], Token::Symbol("=".to_string()));
    assert_eq!(toks[3], Token::Number(NumberLit::Dec("10".to_string())));
    assert_eq!("10".parse::<f64>().unwrap(), 10.0);
    assert_eq!(toks[4], Token::Semi);
    assert_eq!(toks[5], Token::Identifier("x".to_string()));
    assert_eq!(toks[6], Token::Symbol("+=".to_string()));
    assert_eq!(toks[7], Token::Number(NumberLit::Dec("100".to_string())));
    assert_eq!(toks[8], Token::Semi);
    assert_eq!(toks[9], Token::EOF);
}

#[test]
fn relex_is_identical() {
    let text = "let y = 0x10; y <<= 2; # comment\n\"s\\t\"";
    let first = Lexer::new(text.to_string()).lex();
    let second = Lexer::new(text.to_string()).lex();
    assert_eq!(first, second);
}

#[test]
fn maximal_munch_symbols() {
    let mut lx = Lexer::new("a <<= b".to_string());
    let toks = lx.lex().unwrap();
    assert_eq!(toks[1], Token::Symbol("<<=".to_string()));
}

#[test]
fn comments_and_whitespace_skipped() {
    let mut lx = Lexer::new("# only a comment\n\t ".to_string());
    assert_eq!(lx.lex().unwrap(), vec![Token::EOF]);
}

#[test]
fn scanner_cursor_walk() {
    let mut sc = Scanner::from_str("ab c");
    assert!(sc.has_next());
    assert_eq!(sc.current(), 'a');
    assert_eq!(sc.next(), 'b');
    assert_eq!(sc.prev(), '\0');
    assert_eq!(sc.eat(), Some('a'));
    assert_eq!(sc.prev(), 'a');
    let rest = sc.eat_until(' ');
    assert_eq!(rest, "b");
    assert_eq!(sc.eat(), Some(' '));
    assert_eq!(sc.eat_until_cond(|c| c == 'z'), "c");
    assert_eq!(sc.eat(), None);
}

#[test]
fn scanner_eat_until_any() {
    let mut sc = Scanner::new("one,two".chars().collect());
    assert_eq!(sc.eat_until_any(vec![',', ';']), "one");
    assert_eq!(sc.current(), ',');
}

#[test]
fn empty_input_is_one_eof() {
    let mut lx = Lexer::new(String::new());
    assert_eq!(lx.lex().unwrap(), vec![Token::EOF]);
}

#[test]
fn hex_prefix_is_case_insensitive() {
    let mut lx = Lexer::new("0X1f".to_string());
    let toks = lx.lex().unwrap();
    assert_eq!(toks[0], Token::Number(NumberLit::Hex(31)));
}

#[test]
fn letters_absorbed_into_numeric_run_are_rejected() {
    let mut lx = Lexer::new("10x".to_string());
    assert_eq!(
        lx.lex(),
        Err(LexError::InvalidNumericLiteral("10x".to_string()))
    );
}
