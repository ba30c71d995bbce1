use calc::lexer::{Lexer, TokenKind};

#[test]
fn lex_parens() {
    let source = "()";
    let mut lexer = Lexer::new(source);
    assert_eq!(lexer.next().unwrap().kind, TokenKind::Lparen);
    assert_eq!(lexer.next().unwrap().kind, TokenKind::Rparen);
}

#[test]
fn lex_nums() {
    let source = "1 2 3 4.5 6.99";
    let mut lexer = Lexer::new(source);
    match_number(&mut lexer, "1".to_string());
    match_number(&mut lexer, "2".to_string());
    match_number(&mut lexer, "3".to_string());
    match_number(&mut lexer, "4.5".to_string());
    match_number(&mut lexer, "6.99".to_string());
}

fn match_number(lexer: &mut Lexer, num: String) {
    let token_kind = lexer.next().unwrap().kind;
    match token_kind {
        TokenKind::Num(x) => assert_eq!(x, num),
        _ => panic!("Expected a Number found {:?}", token_kind),
    }
}

#[test]
fn lex_arithmetic_ops() {
    let source = "+ - * / %";
    let mut lexer = Lexer::new(source);
    assert_eq!(lexer.next().unwrap().kind, TokenKind::Plus);
    assert_eq!(lexer.next().unwrap().kind, TokenKind::Minus);
    assert_eq!(lexer.next().unwrap().kind, TokenKind::Mult);
    assert_eq!(lexer.next().unwrap().kind, TokenKind::Div);
    assert_eq!(lexer.next().unwrap().kind, TokenKind::Mod);
}

#[test]
fn lex_idents_and_var() {
    let source = "pow sin cos tan $hello = ";
    let mut lexer = Lexer::new(source);
    assert_eq!(lexer.next().unwrap().kind, TokenKind::Pow);
    assert_eq!(lexer.next().unwrap().kind, TokenKind::Sin);
    assert_eq!(lexer.next().unwrap().kind, TokenKind::Cos);
    assert_eq!(lexer.next().unwrap().kind, TokenKind::Tan);
    assert_eq!(lexer.next().unwrap().kind, TokenKind::Var);
    assert_eq!(
        lexer.next().unwrap().kind,
        TokenKind::Ident("hello".to_string())
    );
    assert_eq!(lexer.next().unwrap().kind, TokenKind::Equal);
}

#[test]
fn test_offset() {
    let source = "+ - * / %";
    let mut lexer = Lexer::new(source);
    verify_offset(&mut lexer, '+');
    verify_offset(&mut lexer, '-');
    verify_offset(&mut lexer, '*');
    verify_offset(&mut lexer, '/');
    verify_offset(&mut lexer, '%');
}

fn verify_offset(lexer: &mut Lexer, expected: char) {
    let tok = lexer.next().unwrap();
    let mut char_indices = lexer.source.char_indices();
    let (_, ch) = char_indices.nth((tok.offset - 1) as usize).unwrap();
    if ch != expected {
        panic!("Expected: {expected} got {ch} at offset {}", tok.offset);
    }
}
