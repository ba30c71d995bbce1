use calc::lexer::tokenize;
use calc::parser::{parse, Nodes};

fn parse_line(source: &str) -> Nodes {
    let tokens = tokenize(source);
    let mut pos: usize = 0;
    parse(source, &tokens, &mut pos, 0).unwrap()
}

#[test]
fn parse_int() {
    let source = "1";
    let parsed = parse_line(source);
    assert_eq!(parsed.to_string(), "1");
}

#[test]
fn parse_expr() {
    let source = "3 * 2 + 1";
    let parsed = parse_line(source);
    assert_eq!(parsed.to_string(), "(+ (* 3 2) 1)");
}

#[test]
fn parse_negative_pref() {
    let source = "-3 + 2";
    let parsed = parse_line(source);
    assert_eq!(parsed.to_string(), "(+ -3 2)");
}

#[test]
fn parse_pos_pref() {
    let source = "+(-3 + 2)";
    let parsed = parse_line(source);
    assert_eq!(parsed.to_string(), "+(+ -3 2)");
}
