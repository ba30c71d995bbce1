use vstd::prelude::*;
use crate::compiler::{compile_node, lemma_compile_node_wf, op_opcode, spec_compile};
use crate::diag::SpecDiag;
use crate::lexer::{is_ws_char, spec_tokens, spec_token_at, ws_end, SpecToken, SpecTokenKind};
use crate::parser::{node_wf, spec_parse, spec_precedence, SpecNode};
use crate::parser::spec_print;
use crate::stack::SpecSlot;
use crate::value::{
    all_digits, dec_digits, digit_char, digit_val, digits_end, digits_val, frac_digits,
    is_digit_char, pow10, rat_add, rat_div, rat_eq, rat_mod, rat_mul, rat_neg, rat_sub, rat_wf,
    spec_format, spec_parse_number, Rat, FRAC_REM_CUTOFF, MAX_FRAC_DIGITS,
};
use crate::vm::{binary_result, run_from, RunResult, SpecOpcode};
use crate::STACK_CAPACITY;

verus! {

/// The standard evaluation of an expression tree: exact arithmetic, the
/// left operand before the right one.  `None` when a division or remainder
/// by zero occurs, or when an intermediate result cannot be represented.
pub open spec fn eval_node(n: SpecNode) -> Option<Rat>
    recommends
        node_wf(n),
    decreases n,
{
    match n {
        SpecNode::Number { val, .. } => Some(val),
        SpecNode::Negative(child) => match eval_node(*child) {
            Some(v) => rat_neg(v),
            None => None,
        },
        SpecNode::Positive(child) => eval_node(*child),
        SpecNode::Operator { op, left, right } => match (eval_node(*left), eval_node(*right)) {
            (Some(a), Some(b)) => match op.kind {
                SpecTokenKind::Plus => rat_add(a, b),
                SpecTokenKind::Minus => rat_sub(a, b),
                SpecTokenKind::Mult => rat_mul(a, b),
                SpecTokenKind::Div => if b.n == 0 {
                    None
                } else {
                    rat_div(a, b)
                },
                SpecTokenKind::Mod => if b.n == 0 {
                    None
                } else {
                    rat_mod(a, b)
                },
                _ => None,
            },
            _ => None,
        },
    }
}

/// The source offset the machine leaves on the evaluated slot: a number
/// keeps its token's offset, a sign keeps its operand's, an operator
/// resets it.
pub open spec fn eval_offset(n: SpecNode) -> int
    decreases n,
{
    match n {
        SpecNode::Number { offset, .. } => offset,
        SpecNode::Negative(child) => eval_offset(*child),
        SpecNode::Positive(child) => eval_offset(*child),
        SpecNode::Operator { .. } => 0,
    }
}

/// How many stack slots evaluating a tree needs beyond what is already
/// filled: the left operand is evaluated first and stays on the stack
/// while the right one is.
pub open spec fn stack_need(n: SpecNode) -> int
    decreases n,
{
    match n {
        SpecNode::Number { .. } => 1,
        SpecNode::Negative(child) => stack_need(*child),
        SpecNode::Positive(child) => stack_need(*child),
        SpecNode::Operator { left, right, .. } => {
            let l = stack_need(*left);
            let r = 1 + stack_need(*right);
            if l >= r {
                l
            } else {
                r
            }
        },
    }
}

/// Evaluating a tree needs at least one slot for its result.
pub proof fn lemma_stack_need_pos(n: SpecNode)
    ensures
        stack_need(n) >= 1,
    decreases n,
{
    match n {
        SpecNode::Number { .. } => {},
        SpecNode::Negative(child) => lemma_stack_need_pos(*child),
        SpecNode::Positive(child) => lemma_stack_need_pos(*child),
        SpecNode::Operator { left, right, .. } => {
            lemma_stack_need_pos(*left);
            lemma_stack_need_pos(*right);
        },
    }
}

/// The heart of compiler correctness: when the lowered code of a tree sits
/// in the program at position `i`, the tree evaluates, and the stack has
/// room, the machine runs that code to completion and continues after it
/// with exactly the tree's value pushed.
pub proof fn lemma_compiled_code_runs(
    chunk: Seq<SpecOpcode>,
    i: int,
    stack: Seq<SpecSlot>,
    src: Seq<char>,
    n: SpecNode,
)
    requires
        node_wf(n),
        0 <= i,
        i + compile_node(n).len() <= chunk.len(),
        chunk.subrange(i, i + compile_node(n).len()) == compile_node(n),
        eval_node(n) is Some,
        stack.len() + stack_need(n) <= STACK_CAPACITY,
    ensures
        run_from(chunk, i, stack, src) == run_from(
            chunk,
            i + compile_node(n).len(),
            stack.push(SpecSlot { offset: eval_offset(n), val: eval_node(n)->0 }),
            src,
        ),
    decreases n,
{
    let code = compile_node(n);
    match n {
        SpecNode::Number { offset, val } => {
            assert(chunk[i] == code[0]);
        },
        SpecNode::Negative(child) => {
            let ccode = compile_node(*child);
            assert(chunk.subrange(i, i + ccode.len() as int) =~= code.subrange(0, ccode.len() as int));
            assert(code.subrange(0, ccode.len() as int) =~= ccode);
            lemma_compiled_code_runs(chunk, i, stack, src, *child);
            let cslot = SpecSlot { offset: eval_offset(*child), val: eval_node(*child)->0 };
            let mid = stack.push(cslot);
            assert(chunk[i + ccode.len()] == code[ccode.len() as int]);
            assert(chunk[i + ccode.len()] == SpecOpcode::Neg);
            assert(mid.last() == cslot);
            assert(mid.drop_last() =~= stack);
            assert(run_from(chunk, i + ccode.len(), mid, src) == run_from(
                chunk,
                i + code.len(),
                stack.push(SpecSlot { offset: eval_offset(n), val: eval_node(n)->0 }),
                src,
            ));
        },
        SpecNode::Positive(child) => {
            let ccode = compile_node(*child);
            assert(chunk.subrange(i, i + ccode.len() as int) =~= code.subrange(0, ccode.len() as int));
            assert(code.subrange(0, ccode.len() as int) =~= ccode);
            lemma_compiled_code_runs(chunk, i, stack, src, *child);
            assert(chunk[i + ccode.len()] == code[ccode.len() as int]);
            assert(chunk[i + ccode.len()] == SpecOpcode::Nop);
        },
        SpecNode::Operator { op, left, right } => {
            let lcode = compile_node(*left);
            let rcode = compile_node(*right);
            lemma_stack_need_pos(*left);
            lemma_stack_need_pos(*right);
            assert(chunk.subrange(i, i + lcode.len() as int) =~= code.subrange(0, lcode.len() as int));
            assert(code.subrange(0, lcode.len() as int) =~= lcode);
            lemma_compiled_code_runs(chunk, i, stack, src, *left);
            let a = SpecSlot { offset: eval_offset(*left), val: eval_node(*left)->0 };
            let mid1 = stack.push(a);
            assert(chunk.subrange(i + lcode.len() as int, i + lcode.len() + rcode.len() as int)
                =~= code.subrange(lcode.len() as int, lcode.len() as int + rcode.len() as int));
            assert(code.subrange(lcode.len() as int, lcode.len() as int + rcode.len() as int)
                =~= rcode);
            lemma_compiled_code_runs(chunk, i + lcode.len(), mid1, src, *right);
            let b = SpecSlot { offset: eval_offset(*right), val: eval_node(*right)->0 };
            let mid2 = mid1.push(b);
            let j = i + lcode.len() as int + rcode.len() as int;
            assert(chunk[j] == code[lcode.len() as int + rcode.len() as int]);
            assert(chunk[j] == op_opcode(op.kind));
            assert(mid2.len() == stack.len() + 2);
            assert(mid2.last() == b);
            assert(mid2[mid2.len() - 2] == a);
            let va = eval_node(*left)->0;
            let vb = eval_node(*right)->0;
            let v = eval_node(n)->0;
            assert(binary_result(op_opcode(op.kind), a, b, src) == Ok::<Rat, SpecDiag>(v));
            assert(mid2.drop_last().drop_last() =~= stack);
            assert(run_from(chunk, j, mid2, src) == run_from(
                chunk,
                j + 1,
                stack.push(SpecSlot { offset: 0, val: v }),
                src,
            ));
        },
    }
}

/// Compiling a line and running the program yields exactly the formatted
/// standard evaluation of the tree the line parses to: multiplicative
/// before additive operators, parentheses overriding, left to right.
pub proof fn theorem_compile_then_execute(src: Seq<char>, tree: SpecNode, v: Rat)
    requires
        spec_parse(src, spec_tokens(src, 0), 0, 0).res == Ok::<SpecNode, SpecDiag>(tree),
        eval_node(tree) == Some(v),
        stack_need(tree) <= STACK_CAPACITY,
    ensures
        spec_compile(src) matches Ok(c) && run_from(c, 0, Seq::<SpecSlot>::empty(), src)
            == RunResult::Returned(spec_format(v)),
{
    crate::compiler::lemma_parse_tree_wf(src, spec_tokens(src, 0), 0, 0);
    lemma_compile_node_wf(tree);
    let code = compile_node(tree);
    let c = code + seq![SpecOpcode::Ret];
    assert(spec_compile(src) == Ok::<Seq<SpecOpcode>, SpecDiag>(c));
    assert(c.subrange(0, code.len() as int) =~= code);
    lemma_compiled_code_runs(c, 0, Seq::<SpecSlot>::empty(), src, tree);
    let s = Seq::<SpecSlot>::empty().push(
        SpecSlot { offset: eval_offset(tree), val: v },
    );
    assert(c[code.len() as int] == SpecOpcode::Ret);
    assert(s.last().val == v);
    assert(run_from(c, code.len() as int, s, src) == RunResult::Returned(spec_format(v)));
}

/// Unary plus is the identity: a positive-wrapped tree evaluates exactly
/// as its operand does, and leaves the same offset on the result.
pub proof fn theorem_positive_identity(n: SpecNode)
    ensures
        eval_node(SpecNode::Positive(Box::new(n))) == eval_node(n),
        eval_offset(SpecNode::Positive(Box::new(n))) == eval_offset(n),
{
}

/// Dividing or taking the remainder by a zero literal always faults with
/// the division diagnostic, whatever the left operand's sign or magnitude:
/// running the lowered tree `left op 0` ends in `DivisionByZero` whenever
/// the left operand itself evaluates.
pub proof fn theorem_div_by_zero_literal(
    src: Seq<char>,
    op: crate::lexer::SpecToken,
    left: Box<SpecNode>,
    zero_offset: int,
    zero: Rat,
)
    requires
        op.kind is Div || op.kind is Mod,
        node_wf(*left),
        eval_node(*left) is Some,
        zero.n == 0,
        rat_wf(zero),
        stack_need(*left) + 1 <= STACK_CAPACITY,
    ensures
        ({
            let tree = SpecNode::Operator {
                op,
                left,
                right: Box::new(SpecNode::Number { offset: zero_offset, val: zero }),
            };
            let c = compile_node(tree) + seq![SpecOpcode::Ret];
            run_from(c, 0, Seq::<SpecSlot>::empty(), src) matches RunResult::Faulted(d)
                && d is DivisionByZero
        }),
{
    let num = SpecNode::Number { offset: zero_offset, val: zero };
    let tree = SpecNode::Operator { op, left, right: Box::new(num) };
    let lcode = compile_node(*left);
    let code = compile_node(tree);
    let c = code + seq![SpecOpcode::Ret];
    lemma_stack_need_pos(*left);
    assert(c.subrange(0, lcode.len() as int) =~= code.subrange(0, lcode.len() as int));
    assert(code.subrange(0, lcode.len() as int) =~= lcode);
    lemma_compiled_code_runs(c, 0, Seq::<SpecSlot>::empty(), src, *left);
    let a = SpecSlot { offset: eval_offset(*left), val: eval_node(*left)->0 };
    let mid1 = Seq::<SpecSlot>::empty().push(a);
    assert(c[lcode.len() as int] == code[lcode.len() as int]);
    assert(code[lcode.len() as int] == compile_node(num)[0]);
    let zslot = SpecSlot { offset: zero_offset, val: zero };
    let mid2 = mid1.push(zslot);
    assert(run_from(c, lcode.len() as int, mid1, src) == run_from(
        c,
        lcode.len() + 1 as int,
        mid2,
        src,
    ));
    let j = lcode.len() as int + 1;
    assert(c[j] == code[j]);
    assert(c[j] == op_opcode(op.kind));
    assert(mid2.len() == 2);
    assert(mid2.last() == zslot);
    assert(mid2[0] == a);
    assert(binary_result(op_opcode(op.kind), a, zslot, src) matches Err(d) && d
        is DivisionByZero);
}

/// Trees of number leaves and prefix signs, as the parser builds them:
/// non-negative leaves in machine range whose denominator is a power of
/// ten no larger than the printer's fraction digits.  These are the shapes
/// whose printed form the grammar reads back.
pub open spec fn sign_chain(t: SpecNode) -> bool
    decreases t,
{
    match t {
        SpecNode::Number { val, .. } => 0 <= val.n <= i128::MAX && (exists|k: nat|
            k <= MAX_FRAC_DIGITS && val.d == pow10(k)),
        SpecNode::Negative(child) => sign_chain(*child),
        SpecNode::Positive(child) => sign_chain(*child),
        SpecNode::Operator { .. } => false,
    }
}

/// The decimal digits of a number are digit characters and read back as
/// the same number.
proof fn lemma_dec_digits_value(m: nat)
    ensures
        all_digits(dec_digits(m)),
        digits_val(dec_digits(m)) == m,
        dec_digits(m).len() >= 1,
    decreases m,
{
    if m < 10 {
        let s = dec_digits(m);
        let c = digit_char(m as int);
        assert(is_digit_char(c));
        assert(digit_val(c) == m);
        assert(s == seq![c]);
        assert(s.len() == 1);
        assert(s.last() == c);
        assert(s.drop_last() =~= Seq::<char>::empty());
        assert(digits_val(s.drop_last()) == 0);
        assert(digits_val(s) == m);
    } else {
        lemma_dec_digits_value(m / 10);
        let s = dec_digits(m);
        let a = dec_digits(m / 10);
        let c = digit_char((m % 10) as int);
        assert(s == a + seq![c]);
        assert(s.drop_last() =~= a);
        assert(s.last() == c);
        assert(digit_val(c) == m % 10);
        assert(forall|i: int| 0 <= i < s.len() ==> is_digit_char(#[trigger] s[i])) by {
            assert(forall|i: int| 0 <= i < a.len() ==> is_digit_char(#[trigger] a[i]));
            assert(forall|i: int|
                0 <= i < s.len() ==> s[i] == (if i < a.len() {
                    a[i]
                } else {
                    c
                }));
        }
        vstd::arithmetic::div_mod::lemma_fundamental_div_mod(m as int, 10);
        assert(digits_val(s) == digits_val(a) * 10 + m % 10);
    }
}

/// Scanning digits runs to the end of an all-digit tail.
proof fn lemma_digits_end_full(s: Seq<char>, i: int)
    requires
        0 <= i <= s.len(),
        forall|j: int| i <= j < s.len() ==> is_digit_char(#[trigger] s[j]),
    ensures
        digits_end(s, i) == s.len(),
    decreases s.len() - i,
{
    if i < s.len() {
        lemma_digits_end_full(s, i + 1);
    }
}

/// Printed digits parse back as the whole number they came from.
proof fn lemma_parse_number_of_digits(m: nat)
    requires
        m <= i128::MAX,
    ensures
        spec_parse_number(dec_digits(m)) == Some(Rat { n: m as int, d: 1 }),
{
    let s = dec_digits(m);
    lemma_dec_digits_value(m);
    lemma_digits_end_full(s, 0);
}

proof fn lemma_pow10_add(a: nat, b: nat)
    ensures
        pow10(a + b) == pow10(a) * pow10(b),
    decreases b,
{
    if b == 0 {
        assert(pow10(a) * 1 == pow10(a)) by (nonlinear_arith);
    } else {
        lemma_pow10_add(a, (b - 1) as nat);
        assert(pow10(a + b) == 10 * (pow10(a) * pow10((b - 1) as nat)));
        assert(10 * (pow10(a) * pow10((b - 1) as nat)) == pow10(a) * (10 * pow10(
            (b - 1) as nat,
        ))) by (nonlinear_arith);
    }
}

/// Concatenated digit text reads as the left part scaled past the right.
proof fn lemma_digits_val_concat(a: Seq<char>, b: Seq<char>)
    ensures
        digits_val(a + b) == digits_val(a) * pow10(b.len()) + digits_val(b),
    decreases b.len(),
{
    if b.len() == 0 {
        assert(a + b =~= a);
        assert(digits_val(a) * 1 == digits_val(a)) by (nonlinear_arith);
    } else {
        let b0 = b.drop_last();
        lemma_digits_val_concat(a, b0);
        assert((a + b).drop_last() =~= a + b0);
        assert((a + b).last() == b.last());
        let e = (if 0 <= digit_val(b.last()) < 10 {
            digit_val(b.last())
        } else {
            0
        });
        assert(digits_val(a + b) == (digits_val(a) * pow10(b0.len()) + digits_val(b0)) * 10 + e);
        assert(digits_val(b) == digits_val(b0) * 10 + e);
        assert((digits_val(a) * pow10(b0.len()) + digits_val(b0)) * 10 + e == digits_val(a) * (
        pow10(b0.len()) * 10) + (digits_val(b0) * 10 + e)) by (nonlinear_arith);
        assert(pow10(b0.len()) * 10 == pow10(b.len())) by {
            assert(pow10(b.len()) == 10 * pow10(b0.len()));
        }
    }
}

/// When the scaled remainder eventually clears the denominator, the
/// produced fraction digits are exact: they read back as the remainder
/// scaled by as many tens.
proof fn lemma_frac_digits_exact(rem: nat, d: nat, t: nat, kb: nat)
    requires
        0 < d <= FRAC_REM_CUTOFF,
        rem < d,
        t <= kb,
        (rem * pow10(t)) % d == 0,
    ensures
        ({
            let f = frac_digits(rem, d, kb);
            &&& all_digits(f)
            &&& f.len() <= t
            &&& rem * pow10(f.len()) == digits_val(f) * d
            &&& (rem != 0 ==> f.len() >= 1)
        }),
    decreases t,
{
    let f = frac_digits(rem, d, kb);
    if t == 0 {
        assert(rem * pow10(0) == rem) by (nonlinear_arith);
        vstd::arithmetic::div_mod::lemma_small_mod(rem, d);
        assert(rem == 0);
        assert(f =~= Seq::<char>::empty());
        assert(0 * pow10(0) == 0 * d) by (nonlinear_arith);
    } else if rem == 0 {
        assert(f =~= Seq::<char>::empty());
        assert(0 * pow10(0) == 0 * d) by (nonlinear_arith);
    } else {
        let scaled = rem * 10;
        let digit = scaled / d;
        let rem2 = scaled % d;
        assert(digit < 10) by (nonlinear_arith)
            requires
                rem < d,
                0 < d,
                scaled == rem * 10,
                digit == scaled / d,
        ;
        vstd::arithmetic::div_mod::lemma_fundamental_div_mod(scaled as int, d as int);
        assert(scaled == d * digit + rem2);
        assert((rem2 * pow10((t - 1) as nat)) % d == 0) by {
            assert(rem * pow10(t) == scaled * pow10((t - 1) as nat)) by {
                assert(pow10(t) == 10 * pow10((t - 1) as nat));
                assert(rem * (10 * pow10((t - 1) as nat)) == (rem * 10) * pow10(
                    (t - 1) as nat,
                )) by (nonlinear_arith);
            }
            assert(scaled * pow10((t - 1) as nat) == d * (digit * pow10((t - 1) as nat)) + rem2
                * pow10((t - 1) as nat)) by (nonlinear_arith)
                requires
                    scaled == d * digit + rem2,
            ;
            vstd::arithmetic::div_mod::lemma_mod_multiples_vanish(
                digit * pow10((t - 1) as nat) as int,
                rem2 * pow10((t - 1) as nat) as int,
                d as int,
            );
        }
        lemma_frac_digits_exact(rem2, d, (t - 1) as nat, (kb - 1) as nat);
        let f2 = frac_digits(rem2, d, (kb - 1) as nat);
        let c = digit_char(digit as int);
        assert(f == seq![c] + f2);
        assert(is_digit_char(c) && digit_val(c) == digit);
        assert(all_digits(f)) by {
            assert(forall|p: int|
                0 <= p < f.len() ==> f[p] == (if p == 0 {
                    c
                } else {
                    f2[p - 1]
                }));
        }
        lemma_digits_val_concat(seq![c], f2);
        assert(digits_val(seq![c]) == digit) by {
            assert(seq![c].len() == 1);
            assert(seq![c].drop_last() =~= Seq::<char>::empty());
            assert(seq![c].last() == c);
            assert(digits_val(Seq::<char>::empty()) == 0);
            assert(0 <= digit_val(c) < 10);
            assert(digits_val(seq![c]) == digits_val(seq![c].drop_last()) * 10 + digit_val(c));
        }
        let j2 = f2.len();
        assert(digits_val(f) == digit * pow10(j2) + digits_val(f2));
        assert(rem * pow10(f.len()) == digits_val(f) * d) by (nonlinear_arith)
            requires
                f.len() == j2 + 1,
                pow10(j2 + 1) == 10 * pow10(j2),
                scaled == rem * 10,
                scaled == d * digit + rem2,
                rem2 * pow10(j2) == digits_val(f2) * d,
                digits_val(f) == digit * pow10(j2) + digits_val(f2),
        ;
    }
}

/// Digit scanning stops exactly at the first position that is not a digit.
proof fn lemma_digits_end_stops(s: Seq<char>, i: int, e: int)
    requires
        0 <= i <= e <= s.len(),
        forall|j: int| i <= j < e ==> is_digit_char(#[trigger] s[j]),
        e == s.len() || !is_digit_char(s[e]),
    ensures
        digits_end(s, i) == e,
    decreases e - i,
{
    if i < e {
        lemma_digits_end_stops(s, i + 1, e);
    }
}

/// Formatting a non-negative value whose denominator is a small power of
/// ten, and parsing the text back, recovers the same number: the printed
/// decimal expansion is exact.
pub proof fn theorem_format_parse_value(v: Rat, k: nat)
    requires
        rat_wf(v),
        0 <= v.n <= i128::MAX,
        v.d == pow10(k),
        k <= 32,
    ensures
        spec_parse_number(spec_format(v)) matches Some(w) && rat_wf(w) && rat_eq(w, v) && 0 <= w.n
            <= v.n && 0 < w.d <= v.d,
{
    let m = v.n as nat;
    let d = v.d as nat;
    let q = m / d;
    let rem = m % d;
    let text = spec_format(v);
    vstd::arithmetic::div_mod::lemma_fundamental_div_mod(m as int, d as int);
    assert(m == d * q + rem);
    lemma_dec_digits_value(q);
    assert(q <= m) by (nonlinear_arith)
        requires
            m == d * q + rem,
            d >= 1,
            q >= 0,
            rem >= 0,
    ;
    assert(pow10(32) == 100000000000000000000000000000000) by {
        reveal_with_fuel(pow10, 33);
    }
    crate::value::lemma_pow10_monotone(k, 32);
    if rem == 0 {
        let frac = frac_digits(rem, d, MAX_FRAC_DIGITS as nat);
        assert(frac =~= Seq::<char>::empty());
        assert(text == dec_digits(q));
        lemma_parse_number_of_digits(q);
        assert(spec_parse_number(text) == Some(Rat { n: q as int, d: 1 }));
        assert((q as int) * v.d == v.n * 1) by (nonlinear_arith)
            requires
                m == d * q + rem,
                rem == 0,
                m == v.n,
                d == v.d,
    ;
    } else {
        assert(d <= FRAC_REM_CUTOFF);
        let f = frac_digits(rem, d, MAX_FRAC_DIGITS as nat);
        assert((rem * pow10(k)) % d == 0) by {
            vstd::arithmetic::div_mod::lemma_mod_multiples_basic(rem as int, d as int);
        }
        lemma_frac_digits_exact(rem, d, k, MAX_FRAC_DIGITS as nat);
        let j = f.len();
        assert(1 <= j <= k);
        assert(text == dec_digits(q) + seq!['.'] + f);
        let dq = dec_digits(q);
        let kk = dq.len() as int;
        assert(forall|p: int| 0 <= p < kk ==> is_digit_char(#[trigger] text[p])) by {
            assert(forall|p: int| 0 <= p < kk ==> text[p] == dq[p]);
        }
        assert(text[kk] == '.');
        assert(!is_digit_char('.'));
        lemma_digits_end_stops(text, 0, kk);
        let rest = text.subrange(kk + 1, text.len() as int);
        assert(rest =~= f);
        assert(text.subrange(0, kk) =~= dq);
        lemma_digits_val_concat(dq, f);
        assert(text.subrange(0, kk) + rest =~= dq + f);
        let mm = digits_val(dq + f);
        assert(mm == q * pow10(j) + digits_val(f));
        assert(mm * d == m * pow10(j)) by (nonlinear_arith)
            requires
                m == d * q + rem,
                rem * pow10(j) == digits_val(f) * d,
                mm == q * pow10(j) + digits_val(f),
        ;
        crate::value::lemma_pow10_monotone(j, k);
        assert(mm <= m) by (nonlinear_arith)
            requires
                mm * d == m * pow10(j),
                pow10(j) <= d,
                0 < d,
                0 <= m,
                0 <= mm,
        ;
        crate::value::lemma_pow10_monotone(j, 32);
        assert(spec_parse_number(text) == Some(
            Rat { n: mm as int, d: pow10(j) as int },
        ));
        assert((mm as int) * v.d == v.n * (pow10(j) as int)) by (nonlinear_arith)
            requires
                mm * d == m * pow10(j),
                m == v.n,
                d == v.d,
        ;
        crate::value::lemma_pow10_pos(j);
    }
}

/// The tokens the printed form of a sign chain lexes to, when the text
/// starts at position `i` of the line.
spec fn chain_tokens(t: SpecNode, i: int) -> Seq<SpecToken>
    decreases t,
{
    match t {
        SpecNode::Number { val, .. } => seq![
            SpecToken {
                kind: SpecTokenKind::Num(spec_format(val)),
                offset: i + spec_format(val).len(),
            },
        ],
        SpecNode::Negative(child) => seq![SpecToken { kind: SpecTokenKind::Minus, offset: i + 1 }]
            + chain_tokens(*child, i + 1),
        SpecNode::Positive(child) => seq![SpecToken { kind: SpecTokenKind::Plus, offset: i + 1 }]
            + chain_tokens(*child, i + 1),
        SpecNode::Operator { .. } => Seq::empty(),
    }
}

/// Lexing the printed form of a sign chain yields exactly its chain of
/// sign tokens and one number token.
proof fn lemma_lex_chain(s: Seq<char>, i: int, t: SpecNode)
    requires
        sign_chain(t),
        0 <= i,
        s.len() == i + spec_print(t).len(),
        s.subrange(i, s.len() as int) == spec_print(t),
    ensures
        spec_tokens(s, i) == chain_tokens(t, i),
    decreases t,
{
    match t {
        SpecNode::Number { val, .. } => {
            let k = choose|k: nat| k <= MAX_FRAC_DIGITS && val.d == pow10(k);
            let m = val.n as nat;
            let d = val.d as nat;
            let q = m / d;
            let rem = m % d;
            let text = spec_format(val);
            let dq = dec_digits(q);
            let f = frac_digits(rem, d, MAX_FRAC_DIGITS as nat);
            lemma_dec_digits_value(q);
            crate::value::lemma_pow10_pos(k);
            assert(pow10(32) == 100000000000000000000000000000000) by {
                reveal_with_fuel(pow10, 33);
            }
            crate::value::lemma_pow10_monotone(k, 32);
            assert(spec_print(t) == text);
            assert(forall|j: int| 0 <= j < text.len() ==> s[i + j] == #[trigger] text[j]) by {
                assert(forall|j: int|
                    0 <= j < text.len() ==> #[trigger] text[j] == s.subrange(i, s.len() as int)[j]);
            }
            if rem == 0 {
                assert(f =~= Seq::<char>::empty());
                assert(text == dq);
                assert(s[i] == text[0] && is_digit_char(text[0]));
                assert(!is_ws_char(s[i]));
                assert(ws_end(s, i) == i);
                assert(forall|j: int| i + 1 <= j < s.len() ==> is_digit_char(#[trigger] s[j])) by {
                    assert(forall|j: int|
                        i + 1 <= j < s.len() ==> s[j] == text[j - i] && is_digit_char(
                            text[j - i],
                        ));
                }
                lemma_digits_end_stops(s, i + 1, s.len() as int);
                let tok = spec_token_at(s, i);
                assert(s.subrange(i, s.len() as int) == text);
                assert(tok.kind == SpecTokenKind::Num(text));
                assert(tok.offset == s.len());
                assert(ws_end(s, s.len() as int) == s.len());
                assert(spec_tokens(s, tok.offset) =~= Seq::<SpecToken>::empty());
                assert(spec_tokens(s, i) =~= chain_tokens(t, i));
            } else {
                assert((rem * pow10(k)) % d == 0) by {
                    vstd::arithmetic::div_mod::lemma_mod_multiples_basic(rem as int, d as int);
                }
                lemma_frac_digits_exact(rem, d, k, MAX_FRAC_DIGITS as nat);
                assert(f.len() >= 1);
                assert(text == dq + seq!['.'] + f);
                let e = i + dq.len() as int;
                assert(s[i] == text[0] && text[0] == dq[0]);
                assert(ws_end(s, i) == i);
                assert(forall|j: int| i + 1 <= j < e ==> is_digit_char(#[trigger] s[j])) by {
                    assert(forall|j: int|
                        i + 1 <= j < e ==> s[j] == text[j - i] && text[j - i] == dq[j - i]);
                }
                assert(s[e] == text[dq.len() as int] && text[dq.len() as int] == '.');
                lemma_digits_end_stops(s, i + 1, e);
                assert(forall|j: int| e + 1 <= j < s.len() ==> is_digit_char(#[trigger] s[j])) by {
                    assert(forall|j: int|
                        e + 1 <= j < s.len() ==> s[j] == text[j - i] && text[j - i] == f[j - i - 1
                            - dq.len()]);
                }
                lemma_digits_end_stops(s, e + 1, s.len() as int);
                let tok = spec_token_at(s, i);
                assert(s.subrange(i, s.len() as int) == text);
                assert(tok.kind == SpecTokenKind::Num(text));
                assert(tok.offset == s.len());
                assert(ws_end(s, s.len() as int) == s.len());
                assert(spec_tokens(s, tok.offset) =~= Seq::<SpecToken>::empty());
                assert(spec_tokens(s, i) =~= chain_tokens(t, i));
            }
        },
        SpecNode::Negative(child) => {
            let p = spec_print(t);
            let q = spec_print(*child);
            assert(p == seq!['-'] + q);
            assert(forall|j: int| 0 <= j < p.len() ==> s[i + j] == #[trigger] p[j]) by {
                assert(forall|j: int|
                    0 <= j < p.len() ==> #[trigger] p[j] == s.subrange(i, s.len() as int)[j]);
            }
            assert(s[i] == p[0] && p[0] == '-');
            assert(ws_end(s, i) == i);
            let tok = spec_token_at(s, i);
            assert(tok.kind == SpecTokenKind::Minus && tok.offset == i + 1);
            assert(s.subrange(i + 1, s.len() as int) =~= q) by {
                assert(forall|j: int|
                    0 <= j < q.len() ==> #[trigger] s.subrange(i + 1, s.len() as int)[j] == s[i + 1
                        + j] && s[i + 1 + j] == p[j + 1] && p[j + 1] == q[j]);
            }
            lemma_lex_chain(s, i + 1, *child);
            assert(spec_tokens(s, i) =~= chain_tokens(t, i));
        },
        SpecNode::Positive(child) => {
            let p = spec_print(t);
            let q = spec_print(*child);
            assert(p == seq!['+'] + q);
            assert(forall|j: int| 0 <= j < p.len() ==> s[i + j] == #[trigger] p[j]) by {
                assert(forall|j: int|
                    0 <= j < p.len() ==> #[trigger] p[j] == s.subrange(i, s.len() as int)[j]);
            }
            assert(s[i] == p[0] && p[0] == '+');
            assert(ws_end(s, i) == i);
            let tok = spec_token_at(s, i);
            assert(tok.kind == SpecTokenKind::Plus && tok.offset == i + 1);
            assert(s.subrange(i + 1, s.len() as int) =~= q) by {
                assert(forall|j: int|
                    0 <= j < q.len() ==> #[trigger] s.subrange(i + 1, s.len() as int)[j] == s[i + 1
                        + j] && s[i + 1 + j] == p[j + 1] && p[j + 1] == q[j]);
            }
            lemma_lex_chain(s, i + 1, *child);
            assert(spec_tokens(s, i) =~= chain_tokens(t, i));
        },
        SpecNode::Operator { .. } => {},
    }
}

/// Parsing the tokens of a printed sign chain succeeds, consumes them all,
/// and gives a tree with the very same value, under any binding power.
proof fn lemma_parse_chain(
    src: Seq<char>,
    toks: Seq<SpecToken>,
    pos: int,
    i: int,
    t: SpecNode,
    min_bp: int,
)
    requires
        sign_chain(t),
        0 <= pos <= toks.len(),
        toks.subrange(pos, toks.len() as int) == chain_tokens(t, i),
    ensures
        ({
            let sp = spec_parse(src, toks, pos, min_bp);
            &&& sp.next == toks.len()
            &&& sp.res matches Ok(t2) && eval_node(t2) matches Some(v2) && eval_node(t)
                matches Some(v) && rat_eq(v2, v) && rat_wf(v2) && rat_wf(v) && -(
            i128::MAX as int) <= v2.n <= i128::MAX && -(i128::MAX as int) <= v.n <= i128::MAX
        }),
    decreases t,
{
    let tail = toks.subrange(pos, toks.len() as int);
    match t {
        SpecNode::Number { val, .. } => {
            let k = choose|k: nat| k <= MAX_FRAC_DIGITS && val.d == pow10(k);
            assert(tail.len() == 1);
            assert(toks.len() == pos + 1);
            assert(tail[0] == toks[pos]);
            assert(toks[pos].kind == SpecTokenKind::Num(spec_format(val)));
            crate::value::lemma_pow10_pos(k);
            theorem_format_parse_value(val, k);
            let w = spec_parse_number(spec_format(val))->0;
            let node = SpecNode::Number { offset: toks[pos].offset, val: w };
            let sp = spec_parse(src, toks, pos, min_bp);
            assert(sp == crate::parser::spec_parse_infix(src, toks, pos + 1, node, min_bp));
            assert(sp.res == Ok::<SpecNode, SpecDiag>(node) && sp.next == pos + 1);
            assert(eval_node(node) == Some(w));
            assert(eval_node(t) == Some(val));
            assert(rat_eq(w, val));
        },
        SpecNode::Negative(child) => {
            assert(tail.len() >= 1);
            assert(pos < toks.len());
            assert(tail[0] == toks[pos]);
            assert(toks[pos].kind is Minus);
            let ctoks = chain_tokens(*child, i + 1);
            assert(toks.subrange(pos + 1, toks.len() as int) =~= ctoks) by {
                assert(forall|j: int|
                    0 <= j < ctoks.len() ==> #[trigger] toks.subrange(pos + 1, toks.len() as int)[j]
                        == toks[pos + 1 + j] && toks[pos + 1 + j] == tail[j + 1] && tail[j + 1]
                        == ctoks[j]);
            }
            lemma_parse_chain(src, toks, pos + 1, i + 1, *child, 3);
            let inner = spec_parse(src, toks, pos + 1, 3);
            let t2c = inner.res->Ok_0;
            let t2 = SpecNode::Negative(Box::new(t2c));
            let sp = spec_parse(src, toks, pos, min_bp);
            assert(spec_precedence(SpecTokenKind::Minus).0 == 3);
            assert(inner.next == toks.len());
            assert(sp == crate::parser::spec_parse_infix(src, toks, inner.next, t2, min_bp));
            assert(sp.res == Ok::<SpecNode, SpecDiag>(t2) && sp.next == toks.len());
            let vc = eval_node(*child)->0;
            let vc2 = eval_node(t2c)->0;
            assert(eval_node(t2) == rat_neg(vc2));
            assert(eval_node(t) == rat_neg(vc));
            assert(crate::value::in_i128(-vc.n) && crate::value::in_i128(-vc2.n));
            assert(rat_neg(vc) == Some(Rat { n: -vc.n, d: vc.d }));
            assert(rat_neg(vc2) == Some(Rat { n: -vc2.n, d: vc2.d }));
            assert(rat_eq(Rat { n: -vc2.n, d: vc2.d }, Rat { n: -vc.n, d: vc.d }))
                by (nonlinear_arith)
                requires
                    vc2.n * vc.d == vc.n * vc2.d,
            ;
        },
        SpecNode::Positive(child) => {
            assert(tail.len() >= 1);
            assert(pos < toks.len());
            assert(tail[0] == toks[pos]);
            assert(toks[pos].kind is Plus);
            let ctoks = chain_tokens(*child, i + 1);
            assert(toks.subrange(pos + 1, toks.len() as int) =~= ctoks) by {
                assert(forall|j: int|
                    0 <= j < ctoks.len() ==> #[trigger] toks.subrange(pos + 1, toks.len() as int)[j]
                        == toks[pos + 1 + j] && toks[pos + 1 + j] == tail[j + 1] && tail[j + 1]
                        == ctoks[j]);
            }
            lemma_parse_chain(src, toks, pos + 1, i + 1, *child, 3);
            let inner = spec_parse(src, toks, pos + 1, 3);
            let t2c = inner.res->Ok_0;
            let t2 = SpecNode::Positive(Box::new(t2c));
            let sp = spec_parse(src, toks, pos, min_bp);
            assert(spec_precedence(SpecTokenKind::Plus).0 == 3);
            assert(inner.next == toks.len());
            assert(sp == crate::parser::spec_parse_infix(src, toks, inner.next, t2, min_bp));
            assert(sp.res == Ok::<SpecNode, SpecDiag>(t2) && sp.next == toks.len());
            assert(eval_node(t2) == eval_node(t2c));
            assert(eval_node(t) == eval_node(*child));
        },
        SpecNode::Operator { .. } => {},
    }
}

/// Printing a tree of number leaves and prefix signs and parsing the text
/// back yields a tree that evaluates to the same number.  An operator
/// application prints in parenthesized prefix form, which the infix
/// grammar does not read back, so such trees stay outside this law.
pub proof fn theorem_print_reparse(t: SpecNode)
    requires
        sign_chain(t),
    ensures
        ({
            let printed = spec_print(t);
            let sp = spec_parse(printed, spec_tokens(printed, 0), 0, 0);
            &&& sp.res matches Ok(t2) && eval_node(t2) matches Some(v2) && eval_node(t)
                matches Some(v) && rat_eq(v2, v)
        }),
{
    let printed = spec_print(t);
    assert(printed.subrange(0, printed.len() as int) =~= printed);
    lemma_lex_chain(printed, 0, t);
    let toks = spec_tokens(printed, 0);
    assert(toks.subrange(0, toks.len() as int) =~= toks);
    lemma_parse_chain(printed, toks, 0, 0, t, 0);
}

} // verus!
