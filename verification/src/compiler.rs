use vstd::prelude::*;
use crate::diag::{Diag, SpecDiag};
use crate::lexer::{spec_tokens, tokenize, SpecTokenKind};
use crate::parser::{is_op_kind, node_wf, parse, spec_parse, Nodes, SpecNode};
use crate::vm::{chunk_view, chunk_wf, Chunk, Opcode, SpecOpcode};

verus! {

/// The opcode an infix operator lowers to.
pub open spec fn op_opcode(k: SpecTokenKind) -> SpecOpcode
    recommends
        is_op_kind(k),
{
    match k {
        SpecTokenKind::Plus => SpecOpcode::Add,
        SpecTokenKind::Minus => SpecOpcode::Sub,
        SpecTokenKind::Div => SpecOpcode::Div,
        SpecTokenKind::Mult => SpecOpcode::Mult,
        SpecTokenKind::Mod => SpecOpcode::Mod,
        _ => SpecOpcode::Nop,
    }
}

/// What a tree lowers to: children before parents, so the machine sees
/// operands before the operator that consumes them.  Unary plus lowers to
/// an explicit no-op.
pub open spec fn compile_node(n: SpecNode) -> Seq<SpecOpcode>
    decreases n,
{
    match n {
        SpecNode::Number { offset, val } => seq![SpecOpcode::Num { offset, val }],
        SpecNode::Negative(child) => compile_node(*child) + seq![SpecOpcode::Neg],
        SpecNode::Positive(child) => compile_node(*child) + seq![SpecOpcode::Nop],
        SpecNode::Operator { op, left, right } => compile_node(*left) + compile_node(*right)
            + seq![op_opcode(op.kind)],
    }
}

/// A well-formed tree lowers to a well-formed program.
pub proof fn lemma_compile_node_wf(n: SpecNode)
    requires
        node_wf(n),
    ensures
        chunk_wf(compile_node(n)),
        compile_node(n).len() >= 1,
    decreases n,
{
    match n {
        SpecNode::Number { .. } => {},
        SpecNode::Negative(child) => {
            lemma_compile_node_wf(*child);
        },
        SpecNode::Positive(child) => {
            lemma_compile_node_wf(*child);
        },
        SpecNode::Operator { left, right, .. } => {
            lemma_compile_node_wf(*left);
            lemma_compile_node_wf(*right);
        },
    }
}

/// What compiling a whole line produces: the lowered tree with a final
/// return instruction, or the diagnostic of the stage that failed.
pub open spec fn spec_compile(src: Seq<char>) -> Result<Seq<SpecOpcode>, SpecDiag> {
    let toks = spec_tokens(src, 0);
    let sp = spec_parse(src, toks, 0, 0);
    match sp.res {
        Ok(tree) => Ok(compile_node(tree) + seq![SpecOpcode::Ret]),
        Err(d) => Err(d),
    }
}

/// The instruction an operator token lowers to.
fn op_to_opcode(kind: &crate::lexer::TokenKind) -> (r: Opcode)
    requires
        is_op_kind(kind@),
    ensures
        r@ == op_opcode(kind@),
{
    match kind {
        crate::lexer::TokenKind::Plus => Opcode::Add,
        crate::lexer::TokenKind::Minus => Opcode::Sub,
        crate::lexer::TokenKind::Div => Opcode::Div,
        crate::lexer::TokenKind::Mult => Opcode::Mult,
        crate::lexer::TokenKind::Mod => Opcode::Mod,
        _ => {
            assert(false);
            Opcode::Nop
        },
    }
}

/// Lowers a tree onto the end of a program, post-order.
#[verifier::rlimit(50)]
fn traverse_and_compile(nodes: &Nodes, chunk: &mut Chunk)
    requires
        node_wf(nodes@),
    ensures
        chunk_view(final(chunk)@) == chunk_view(old(chunk)@) + compile_node(nodes@),
    decreases nodes,
{
    match nodes {
        Nodes::Number(offset, number) => {
            chunk.push(Opcode::Num(*offset, *number));
            assert(chunk_view(chunk@) =~= chunk_view(old(chunk)@) + compile_node(nodes@));
        },
        Nodes::Operator(op_node) => {
            assert(compile_node(nodes@) =~= compile_node(op_node.left@) + compile_node(
                op_node.right@,
            ) + seq![op_opcode(op_node.op@.kind)]);
            traverse_and_compile(&op_node.left, chunk);
            traverse_and_compile(&op_node.right, chunk);
            let instr = op_to_opcode(&op_node.op.kind);
            let ghost mid = chunk@;
            chunk.push(instr);
            assert(chunk@ == mid.push(instr));
            assert(chunk_view(chunk@) =~= chunk_view(mid).push(op_opcode(op_node.op@.kind)));
            assert(chunk_view(chunk@) =~= chunk_view(old(chunk)@) + compile_node(nodes@));
        },
        Nodes::Negative(node) => {
            assert(compile_node(nodes@) =~= compile_node(node@) + seq![SpecOpcode::Neg]);
            traverse_and_compile(node, chunk);
            let ghost mid = chunk@;
            chunk.push(Opcode::Neg);
            assert(chunk@ == mid.push(Opcode::Neg));
            assert(chunk_view(chunk@) =~= chunk_view(mid).push(SpecOpcode::Neg));
            assert(chunk_view(chunk@) =~= chunk_view(old(chunk)@) + compile_node(nodes@));
        },
        Nodes::Positive(node) => {
            assert(compile_node(nodes@) =~= compile_node(node@) + seq![SpecOpcode::Nop]);
            traverse_and_compile(node, chunk);
            let ghost mid = chunk@;
            chunk.push(Opcode::Nop);
            assert(chunk@ == mid.push(Opcode::Nop));
            assert(chunk_view(chunk@) =~= chunk_view(mid).push(SpecOpcode::Nop));
            assert(chunk_view(chunk@) =~= chunk_view(old(chunk)@) + compile_node(nodes@));
        },
    }
}

/// Turns a source line into a program: tokenize, parse, lower, and append
/// the terminating return.  The single entry point in front of the
/// machine.
pub fn compile(source: &str) -> (r: Result<Chunk, Diag>)
    requires
        source@.len() <= 255,
    ensures
        match spec_compile(source@) {
            Ok(c) => r matches Ok(chunk) && chunk_view(chunk@) == c && chunk_wf(c) && chunk@.len()
                > 0,
            Err(d) => r matches Err(e) && e@ == d,
        },
{
    let tokens = tokenize(source);
    let mut pos: usize = 0;
    let ast = match parse(source, &tokens, &mut pos, 0) {
        Ok(t) => t,
        Err(e) => {
            return Err(e);
        },
    };
    proof {
        lemma_parse_tree_wf(source@, tokens@.map_values(|t: crate::lexer::Token| t@), 0, 0);
        lemma_compile_node_wf(ast@);
    }
    let mut chunk: Chunk = Vec::new();
    traverse_and_compile(&ast, &mut chunk);
    chunk.push(Opcode::Ret);
    assert(chunk_view(chunk@) =~= spec_compile(source@)->Ok_0);
    Ok(chunk)
}

/// A tree the parser hands back is well formed: its leaves hold
/// representable values and its operator nodes hold operator tokens.
pub proof fn lemma_parse_tree_wf(
    src: Seq<char>,
    toks: Seq<crate::lexer::SpecToken>,
    pos: int,
    min_bp: int,
)
    requires
        0 <= pos <= toks.len(),
    ensures
        spec_parse(src, toks, pos, min_bp).res matches Ok(tree) ==> node_wf(tree),
    decreases toks.len() - pos, 1int,
{
    if pos < toks.len() {
        let tok = toks[pos];
        match tok.kind {
            SpecTokenKind::Num(text) => {
                crate::value::lemma_parse_number_wf(text);
                if crate::value::spec_parse_number(text) is Some {
                    lemma_infix_tree_wf(
                        src,
                        toks,
                        pos + 1,
                        SpecNode::Number {
                            offset: tok.offset,
                            val: crate::value::spec_parse_number(text)->0,
                        },
                        min_bp,
                    );
                }
            },
            SpecTokenKind::Lparen => {
                lemma_parse_tree_wf(src, toks, pos + 1, 0);
                crate::parser::lemma_parse_advances(src, toks, pos + 1, 0);
                let inner = spec_parse(src, toks, pos + 1, 0);
                if inner.res is Ok && inner.next < toks.len() && toks[inner.next].kind is Rparen {
                    lemma_infix_tree_wf(src, toks, inner.next + 1, inner.res->Ok_0, min_bp);
                }
            },
            SpecTokenKind::Minus => {
                let pbp = crate::parser::spec_precedence(SpecTokenKind::Minus).0 as int;
                lemma_parse_tree_wf(src, toks, pos + 1, pbp);
                crate::parser::lemma_parse_advances(src, toks, pos + 1, pbp);
                let inner = spec_parse(src, toks, pos + 1, pbp);
                if inner.res is Ok {
                    lemma_infix_tree_wf(
                        src,
                        toks,
                        inner.next,
                        SpecNode::Negative(Box::new(inner.res->Ok_0)),
                        min_bp,
                    );
                }
            },
            SpecTokenKind::Plus => {
                let pbp = crate::parser::spec_precedence(SpecTokenKind::Plus).0 as int;
                lemma_parse_tree_wf(src, toks, pos + 1, pbp);
                crate::parser::lemma_parse_advances(src, toks, pos + 1, pbp);
                let inner = spec_parse(src, toks, pos + 1, pbp);
                if inner.res is Ok {
                    lemma_infix_tree_wf(
                        src,
                        toks,
                        inner.next,
                        SpecNode::Positive(Box::new(inner.res->Ok_0)),
                        min_bp,
                    );
                }
            },
            _ => {},
        }
    }
}

/// The infix continuation keeps a well-formed tree well formed.
pub proof fn lemma_infix_tree_wf(
    src: Seq<char>,
    toks: Seq<crate::lexer::SpecToken>,
    pos: int,
    lhs: SpecNode,
    min_bp: int,
)
    requires
        0 <= pos <= toks.len(),
        node_wf(lhs),
    ensures
        crate::parser::spec_parse_infix(src, toks, pos, lhs, min_bp).res matches Ok(tree)
            ==> node_wf(tree),
    decreases toks.len() - pos, 0int,
{
    if pos < toks.len() {
        let tok = toks[pos];
        if is_op_kind(tok.kind) {
            let rbp = crate::parser::spec_precedence(tok.kind).1 as int;
            if rbp > min_bp {
                lemma_parse_tree_wf(src, toks, pos + 1, rbp);
                crate::parser::lemma_parse_advances(src, toks, pos + 1, rbp);
                let rhs = spec_parse(src, toks, pos + 1, rbp);
                if rhs.res is Ok {
                    lemma_infix_tree_wf(
                        src,
                        toks,
                        rhs.next,
                        SpecNode::Operator {
                            op: tok,
                            left: Box::new(lhs),
                            right: Box::new(rhs.res->Ok_0),
                        },
                        min_bp,
                    );
                }
            }
        }
    }
}

} // verus!
