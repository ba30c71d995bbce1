use calc::compiler::compile;
use calc::diag::{Diag, Span};
use calc::vm::Vm;

fn run(source: &str) -> Result<String, Diag> {
    let chunk = compile(source)?;
    let mut vm = Vm::new(source, chunk);
    vm.eval()
}

#[test]
fn evaluates_mixed_precedence() {
    assert_eq!(run("3 * 2 + 1").unwrap(), "7");
}

#[test]
fn evaluates_remainder() {
    assert_eq!(run("20 % 10").unwrap(), "0");
}

#[test]
fn evaluates_left_associative_subtraction() {
    assert_eq!(run("10 - 4 - 3").unwrap(), "3");
}

#[test]
fn evaluates_negative_result() {
    assert_eq!(run("2 - 5").unwrap(), "-3");
}

#[test]
fn evaluates_fractions_exactly() {
    assert_eq!(run("1 / 2").unwrap(), "0.5");
    assert_eq!(run("1 / 4").unwrap(), "0.25");
    assert_eq!(run("0.1 + 0.2").unwrap(), "0.3");
    assert_eq!(run("4.5 + 6.99").unwrap(), "11.49");
}

#[test]
fn remainder_keeps_dividend_sign() {
    assert_eq!(run("7 % 3").unwrap(), "1");
    assert_eq!(run("-7 % 3").unwrap(), "-1");
    assert_eq!(run("7.5 % 2").unwrap(), "1.5");
}

#[test]
fn division_by_zero_spans_both_operands() {
    let result = run("5 / 0");
    assert_eq!(
        result,
        Err(Diag::DivisionByZero {
            src: "5 / 0".to_string(),
            span: Span { start: 0, len: 5 },
        })
    );
}

#[test]
fn remainder_by_zero_fails_too() {
    match run("17 % 0") {
        Err(Diag::DivisionByZero { .. }) => {}
        other => panic!("expected a division fault, got {:?}", other),
    }
}

#[test]
fn unclosed_bracket_spans_the_opening_paren() {
    let result = compile("(1 + 2");
    assert_eq!(
        result.unwrap_err(),
        Diag::UnclosedBracket {
            src: "(1 + 2".to_string(),
            span: Span { start: 0, len: 1 },
        }
    );
}

#[test]
fn empty_line_is_unexpected_eof() {
    assert_eq!(compile("").unwrap_err(), Diag::UnexpectedEof);
}

#[test]
fn stray_operator_is_unexpected_token() {
    let result = compile("* 3");
    assert_eq!(
        result.unwrap_err(),
        Diag::UnexpectedToken {
            src: "* 3".to_string(),
            span: Span { start: 0, len: 1 },
        }
    );
}

#[test]
fn illegal_character_is_unexpected_token() {
    match compile("# 1") {
        Err(Diag::UnexpectedToken { .. }) => {}
        other => panic!("expected an unexpected-token failure, got {:?}", other),
    }
}

#[test]
fn oversized_number_fails_number_parsing() {
    let source = "170141183460469231731687303715884105728";
    match compile(source) {
        Err(Diag::NumParseError { src, span }) => {
            assert_eq!(src, source);
            assert_eq!(span, Span { start: 0, len: 39 });
        }
        other => panic!("expected a number failure, got {:?}", other),
    }
}

#[test]
fn oversized_product_overflows() {
    let source = "99999999999999999999999999999999999 * 99999999999999999999999999999999999";
    assert_eq!(run(source), Err(Diag::ValueOverflow));
}

#[test]
fn diagnostics_carry_messages_and_help() {
    let fault = run("5 / 0").unwrap_err();
    assert_eq!(fault.message(), "Division by zero!");
    assert_eq!(fault.help(), Some("try to divide by anything other than that"));
    assert_eq!(
        fault.span(),
        Some(Span { start: 0, len: 5 })
    );
    assert_eq!(Diag::NoReturnOpcode.help(), None);
}

#[test]
fn printed_fractions_read_back() {
    assert_eq!(run("2.5").unwrap(), "2.5");
    assert_eq!(run("2.50").unwrap(), "2.5");
    assert_eq!(run("0.25").unwrap(), "0.25");
    assert_eq!(run("5.").unwrap(), "5");
}

#[test]
fn trailing_tokens_after_expression_are_ignored() {
    assert_eq!(run("1 2").unwrap(), "1");
}
