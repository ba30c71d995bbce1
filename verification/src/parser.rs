use vstd::prelude::*;
use vstd::string::StrSliceExecFns;
use vstd::string::StringExecFns;
use crate::diag::{Diag, Span, SpecDiag, SpecSpan};
use crate::lexer::{SpecToken, SpecTokenKind, Token, TokenKind};
use crate::value::{rat_wf, spec_format, spec_parse_number, Rat, Value};

verus! {

/// An infix application: the operator token and the two operand trees,
/// each owned by this node alone.
pub struct OperatorNode {
    pub op: Token,
    pub left: Box<Nodes>,
    pub right: Box<Nodes>,
}

/// An expression tree.  A number leaf keeps the offset of its token so
/// that runtime faults can point back into the line.
pub enum Nodes {
    Number(u8, Value),
    Negative(Box<Nodes>),
    Positive(Box<Nodes>),
    Operator(OperatorNode),
}

/// An expression tree as the specifications see it.
pub enum SpecNode {
    Number { offset: int, val: Rat },
    Negative(Box<SpecNode>),
    Positive(Box<SpecNode>),
    Operator { op: SpecToken, left: Box<SpecNode>, right: Box<SpecNode> },
}

/// The tree a `Nodes` value stands for.
pub open spec fn node_view(n: Nodes) -> SpecNode
    decreases n,
{
    match n {
        Nodes::Number(offset, v) => SpecNode::Number { offset: offset as int, val: v@ },
        Nodes::Negative(child) => SpecNode::Negative(Box::new(node_view(*child))),
        Nodes::Positive(child) => SpecNode::Positive(Box::new(node_view(*child))),
        Nodes::Operator(node) => SpecNode::Operator {
            op: node.op@,
            left: Box::new(node_view(*node.left)),
            right: Box::new(node_view(*node.right)),
        },
    }
}

impl View for Nodes {
    type V = SpecNode;

    open spec fn view(&self) -> SpecNode {
        node_view(*self)
    }
}

/// The token kinds that can stand between two operands.
pub open spec fn is_op_kind(k: SpecTokenKind) -> bool {
    k is Plus || k is Minus || k is Div || k is Mult || k is Mod
}

/// A well-formed tree: number leaves hold well-formed values and operator
/// nodes hold operator tokens.
pub open spec fn node_wf(n: SpecNode) -> bool
    decreases n,
{
    match n {
        SpecNode::Number { val, .. } => rat_wf(val),
        SpecNode::Negative(child) => node_wf(*child),
        SpecNode::Positive(child) => node_wf(*child),
        SpecNode::Operator { op, left, right } => is_op_kind(op.kind) && node_wf(*left) && node_wf(
            *right,
        ),
    }
}

/// The binding powers of an operator: the first is also its strength as a
/// prefix, the second decides when it folds as an infix.  Multiplicative
/// operators bind tighter than additive ones.
pub open spec fn spec_precedence(k: SpecTokenKind) -> (u8, u8)
    recommends
        is_op_kind(k),
{
    match k {
        SpecTokenKind::Plus => (3u8, 1u8),
        SpecTokenKind::Mod => (0u8, 1u8),
        SpecTokenKind::Minus => (3u8, 1u8),
        SpecTokenKind::Mult => (0u8, 2u8),
        SpecTokenKind::Div => (0u8, 2u8),
        _ => (0u8, 0u8),
    }
}

/// The binding powers of an operator token.
pub fn get_precedence(kind: &TokenKind) -> (r: (u8, u8))
    requires
        is_op_kind(kind@),
    ensures
        r == spec_precedence(kind@),
{
    match kind {
        TokenKind::Plus => (3, 1),
        TokenKind::Mod => (0, 1),
        TokenKind::Minus => (3, 1),
        TokenKind::Mult | TokenKind::Div => (0, 2),
        _ => {
            assert(false);
            (0, 0)
        },
    }
}

/// The span of a token whose text is `len` characters long and whose last
/// character sits just before `offset`.
pub open spec fn token_span(offset: int, len: int) -> SpecSpan {
    SpecSpan { start: if offset >= len { offset - len } else { 0 }, len }
}

/// What parsing from `pos` on produces: the result and the position of the
/// first unconsumed token.
pub struct SpecParse {
    pub res: Result<SpecNode, SpecDiag>,
    pub next: int,
}

/// The parser, as a function: precedence climbing over the token sequence.
/// One token starts the primary expression; the infix continuation then
/// folds operators whose right binding power beats `min_bp`.
pub open spec fn spec_parse(src: Seq<char>, toks: Seq<SpecToken>, pos: int, min_bp: int) -> SpecParse
    recommends
        0 <= pos <= toks.len(),
    decreases toks.len() - pos,
{
    if pos < 0 || pos >= toks.len() {
        SpecParse { res: Err(SpecDiag::UnexpectedEof), next: pos }
    } else {
        let tok = toks[pos];
        match tok.kind {
            SpecTokenKind::Num(text) => match spec_parse_number(text) {
                Some(v) => spec_parse_infix(
                    src,
                    toks,
                    pos + 1,
                    SpecNode::Number { offset: tok.offset, val: v },
                    min_bp,
                ),
                None => SpecParse {
                    res: Err(
                        SpecDiag::NumParseError { src, span: token_span(tok.offset, text.len() as int) },
                    ),
                    next: pos + 1,
                },
            },
            SpecTokenKind::Lparen => {
                let inner = spec_parse(src, toks, pos + 1, 0);
                match inner.res {
                    Err(e) => SpecParse { res: Err(e), next: inner.next },
                    Ok(tree) => {
                        if inner.next >= toks.len() {
                            SpecParse {
                                res: Err(
                                    SpecDiag::UnclosedBracket {
                                        src,
                                        span: token_span(tok.offset, 1),
                                    },
                                ),
                                next: inner.next,
                            }
                        } else if !(toks[inner.next].kind is Rparen) {
                            SpecParse {
                                res: Err(
                                    SpecDiag::UnclosedBracket {
                                        src,
                                        span: token_span(tok.offset, 1),
                                    },
                                ),
                                next: inner.next + 1,
                            }
                        } else if inner.next + 1 > pos {
                            spec_parse_infix(src, toks, inner.next + 1, tree, min_bp)
                        } else {
                            SpecParse { res: Err(SpecDiag::UnexpectedEof), next: pos }
                        }
                    },
                }
            },
            SpecTokenKind::Minus => {
                let inner = spec_parse(src, toks, pos + 1, spec_precedence(SpecTokenKind::Minus).0 as int);
                match inner.res {
                    Err(e) => SpecParse { res: Err(e), next: inner.next },
                    Ok(tree) => {
                        if pos < inner.next <= toks.len() {
                            spec_parse_infix(
                                src,
                                toks,
                                inner.next,
                                SpecNode::Negative(Box::new(tree)),
                                min_bp,
                            )
                        } else {
                            SpecParse { res: Err(SpecDiag::UnexpectedEof), next: pos }
                        }
                    },
                }
            },
            SpecTokenKind::Plus => {
                let inner = spec_parse(src, toks, pos + 1, spec_precedence(SpecTokenKind::Plus).0 as int);
                match inner.res {
                    Err(e) => SpecParse { res: Err(e), next: inner.next },
                    Ok(tree) => {
                        if pos < inner.next <= toks.len() {
                            spec_parse_infix(
                                src,
                                toks,
                                inner.next,
                                SpecNode::Positive(Box::new(tree)),
                                min_bp,
                            )
                        } else {
                            SpecParse { res: Err(SpecDiag::UnexpectedEof), next: pos }
                        }
                    },
                }
            },
            _ => SpecParse {
                res: Err(SpecDiag::UnexpectedToken { src, span: token_span(tok.offset, 1) }),
                next: pos + 1,
            },
        }
    }
}

/// The infix continuation: folds `lhs` with following operators while
/// their right binding power beats `min_bp`, stopping (without consuming)
/// at anything else.
pub open spec fn spec_parse_infix(
    src: Seq<char>,
    toks: Seq<SpecToken>,
    pos: int,
    lhs: SpecNode,
    min_bp: int,
) -> SpecParse
    recommends
        0 <= pos <= toks.len(),
    decreases toks.len() - pos,
{
    if pos < 0 || pos >= toks.len() {
        SpecParse { res: Ok(lhs), next: pos }
    } else {
        let tok = toks[pos];
        if !is_op_kind(tok.kind) {
            SpecParse { res: Ok(lhs), next: pos }
        } else {
            let rbp = spec_precedence(tok.kind).1 as int;
            if rbp <= min_bp {
                SpecParse { res: Ok(lhs), next: pos }
            } else {
                let rhs = spec_parse(src, toks, pos + 1, rbp);
                match rhs.res {
                    Err(e) => SpecParse { res: Err(e), next: rhs.next },
                    Ok(right) => {
                        if pos < rhs.next <= toks.len() {
                            spec_parse_infix(
                                src,
                                toks,
                                rhs.next,
                                SpecNode::Operator {
                                    op: tok,
                                    left: Box::new(lhs),
                                    right: Box::new(right),
                                },
                                min_bp,
                            )
                        } else {
                            SpecParse { res: Err(SpecDiag::UnexpectedEof), next: pos }
                        }
                    },
                }
            }
        }
    }
}

/// Parsing never moves backwards, never runs past the tokens, and a
/// successful parse consumes at least one token.
pub proof fn lemma_parse_advances(src: Seq<char>, toks: Seq<SpecToken>, pos: int, min_bp: int)
    requires
        0 <= pos <= toks.len(),
    ensures
        pos <= spec_parse(src, toks, pos, min_bp).next <= toks.len(),
        spec_parse(src, toks, pos, min_bp).res is Ok ==> spec_parse(src, toks, pos, min_bp).next
            > pos,
    decreases toks.len() - pos, 1int,
{
    if pos >= toks.len() {
    } else {
        let tok = toks[pos];
        match tok.kind {
            SpecTokenKind::Num(text) => {
                if spec_parse_number(text) is Some {
                    lemma_parse_infix_advances(
                        src,
                        toks,
                        pos + 1,
                        SpecNode::Number {
                            offset: tok.offset,
                            val: spec_parse_number(text)->0,
                        },
                        min_bp,
                    );
                }
            },
            SpecTokenKind::Lparen => {
                lemma_parse_advances(src, toks, pos + 1, 0);
                let inner = spec_parse(src, toks, pos + 1, 0);
                if inner.res is Ok {
                    if inner.next < toks.len() && toks[inner.next].kind is Rparen {
                        lemma_parse_infix_advances(
                            src,
                            toks,
                            inner.next + 1,
                            inner.res->Ok_0,
                            min_bp,
                        );
                    }
                }
            },
            SpecTokenKind::Minus => {
                let pbp = spec_precedence(SpecTokenKind::Minus).0 as int;
                lemma_parse_advances(src, toks, pos + 1, pbp);
                let inner = spec_parse(src, toks, pos + 1, pbp);
                if inner.res is Ok {
                    lemma_parse_infix_advances(
                        src,
                        toks,
                        inner.next,
                        SpecNode::Negative(Box::new(inner.res->Ok_0)),
                        min_bp,
                    );
                }
            },
            SpecTokenKind::Plus => {
                let pbp = spec_precedence(SpecTokenKind::Plus).0 as int;
                lemma_parse_advances(src, toks, pos + 1, pbp);
                let inner = spec_parse(src, toks, pos + 1, pbp);
                if inner.res is Ok {
                    lemma_parse_infix_advances(
                        src,
                        toks,
                        inner.next,
                        SpecNode::Positive(Box::new(inner.res->Ok_0)),
                        min_bp,
                    );
                }
            },
            _ => {},
        }
    }
}

/// The infix continuation never moves backwards and never runs past the
/// tokens.
pub proof fn lemma_parse_infix_advances(
    src: Seq<char>,
    toks: Seq<SpecToken>,
    pos: int,
    lhs: SpecNode,
    min_bp: int,
)
    requires
        0 <= pos <= toks.len(),
    ensures
        pos <= spec_parse_infix(src, toks, pos, lhs, min_bp).next <= toks.len(),
    decreases toks.len() - pos, 0int,
{
    if pos >= toks.len() {
    } else {
        let tok = toks[pos];
        if is_op_kind(tok.kind) {
            let rbp = spec_precedence(tok.kind).1 as int;
            if rbp > min_bp {
                lemma_parse_advances(src, toks, pos + 1, rbp);
                let rhs = spec_parse(src, toks, pos + 1, rbp);
                if rhs.res is Ok {
                    lemma_parse_infix_advances(
                        src,
                        toks,
                        rhs.next,
                        SpecNode::Operator {
                            op: tok,
                            left: Box::new(lhs),
                            right: Box::new(rhs.res->Ok_0),
                        },
                        min_bp,
                    );
                }
            }
        }
    }
}

/// The character an operator prints as.
pub open spec fn op_char(k: SpecTokenKind) -> char
    recommends
        is_op_kind(k),
{
    match k {
        SpecTokenKind::Plus => '+',
        SpecTokenKind::Minus => '-',
        SpecTokenKind::Div => '/',
        SpecTokenKind::Mult => '*',
        SpecTokenKind::Mod => '%',
        _ => '?',
    }
}

/// How a tree prints: numbers as decimal text, prefix signs right in front
/// of their operand, and operator applications in parenthesized prefix
/// form.
pub open spec fn spec_print(n: SpecNode) -> Seq<char>
    recommends
        node_wf(n),
    decreases n,
{
    match n {
        SpecNode::Number { val, .. } => spec_format(val),
        SpecNode::Negative(child) => seq!['-'] + spec_print(*child),
        SpecNode::Positive(child) => seq!['+'] + spec_print(*child),
        SpecNode::Operator { op, left, right } => seq!['(', op_char(op.kind), ' '] + spec_print(
            *left,
        ) + seq![' '] + spec_print(*right) + seq![')'],
    }
}

fn op_str(kind: &TokenKind) -> (r: &'static str)
    requires
        is_op_kind(kind@),
    ensures
        r@ =~= seq![op_char(kind@)],
{
    proof {
        reveal_strlit("+");
        reveal_strlit("-");
        reveal_strlit("/");
        reveal_strlit("*");
        reveal_strlit("%");
    }
    match kind {
        TokenKind::Plus => "+",
        TokenKind::Minus => "-",
        TokenKind::Div => "/",
        TokenKind::Mult => "*",
        TokenKind::Mod => "%",
        _ => {
            assert(false);
            "+"
        },
    }
}

impl Nodes {
    /// Renders the tree as text: the display form the tests compare
    /// against.
    pub fn to_string(&self) -> (r: String)
        requires
            node_wf(self@),
        ensures
            r@ == spec_print(self@),
        decreases self,
    {
        proof {
            reveal_strlit("(");
            reveal_strlit(")");
            reveal_strlit(" ");
            reveal_strlit("-");
            reveal_strlit("+");
        }
        match self {
            Nodes::Number(_, v) => v.format(),
            Nodes::Negative(child) => {
                let mut s = String::new();
                s.append("-");
                let inner = child.to_string();
                s.append(inner.as_str());
                assert(s@ =~= spec_print(self@));
                s
            },
            Nodes::Positive(child) => {
                let mut s = String::new();
                s.append("+");
                let inner = child.to_string();
                s.append(inner.as_str());
                assert(s@ =~= spec_print(self@));
                s
            },
            Nodes::Operator(node) => {
                let mut s = String::new();
                s.append("(");
                s.append(op_str(&node.op.kind));
                s.append(" ");
                let left = node.left.to_string();
                s.append(left.as_str());
                s.append(" ");
                let right = node.right.to_string();
                s.append(right.as_str());
                s.append(")");
                assert(s@ =~= spec_print(self@));
                s
            },
        }
    }
}

/// Copies an operator token's kind; operator kinds carry no text.
fn copy_op_kind(kind: &TokenKind) -> (r: TokenKind)
    requires
        is_op_kind(kind@),
    ensures
        r@ == kind@,
{
    match kind {
        TokenKind::Plus => TokenKind::Plus,
        TokenKind::Minus => TokenKind::Minus,
        TokenKind::Div => TokenKind::Div,
        TokenKind::Mult => TokenKind::Mult,
        TokenKind::Mod => TokenKind::Mod,
        _ => {
            assert(false);
            TokenKind::Plus
        },
    }
}

/// Parses one expression from the tokens, starting at `*pos`, folding
/// infix operators whose right binding power beats `prev_precedence`.
/// On return `*pos` names the first unconsumed token.
#[verifier::loop_isolation(false)]
pub fn parse(src: &str, tokens: &Vec<Token>, pos: &mut usize, prev_precedence: u8) -> (r: Result<
    Nodes,
    Diag,
>)
    requires
        *old(pos) <= tokens@.len(),
    ensures
        *old(pos) <= *final(pos) <= tokens@.len(),
        ({
            let sp = spec_parse(
                src@,
                tokens@.map_values(|t: Token| t@),
                *old(pos) as int,
                prev_precedence as int,
            );
            &&& *final(pos) == sp.next
            &&& match sp.res {
                Ok(tree) => r matches Ok(n) && n@ == tree,
                Err(d) => r matches Err(e) && e@ == d,
            }
        }),
    decreases tokens@.len() - *pos,
{
    let ghost toks = tokens@.map_values(|t: Token| t@);
    let ghost pos0 = *pos as int;
    if *pos >= tokens.len() {
        return Err(Diag::UnexpectedEof);
    }
    let token = &tokens[*pos];
    let ghost tok = toks[pos0];
    let mut lhs: Nodes;
    match &token.kind {
        TokenKind::Num(text) => {
            let n = text.as_str().unicode_len();
            match Value::parse_text(text.as_str()) {
                Some(v) => {
                    *pos = *pos + 1;
                    lhs = Nodes::Number(token.offset, v);
                },
                None => {
                    *pos = *pos + 1;
                    let start = if token.offset as usize >= n {
                        token.offset as usize - n
                    } else {
                        0
                    };
                    return Err(
                        Diag::NumParseError {
                            src: src.to_owned(),
                            span: Span { start, len: n },
                        },
                    );
                },
            }
        },
        TokenKind::Lparen => {
            *pos = *pos + 1;
            let inner = match parse(src, tokens, pos, 0) {
                Ok(t) => t,
                Err(e) => {
                    return Err(e);
                },
            };
            let start = if token.offset >= 1 {
                token.offset as usize - 1
            } else {
                0
            };
            if *pos >= tokens.len() {
                return Err(
                    Diag::UnclosedBracket { src: src.to_owned(), span: Span { start, len: 1 } },
                );
            }
            let consumed = &tokens[*pos];
            *pos = *pos + 1;
            match &consumed.kind {
                TokenKind::Rparen => {},
                _ => {
                    return Err(
                        Diag::UnclosedBracket {
                            src: src.to_owned(),
                            span: Span { start, len: 1 },
                        },
                    );
                },
            }
            lhs = inner;
        },
        TokenKind::Minus => {
            let prec = get_precedence(&TokenKind::Minus);
            *pos = *pos + 1;
            let inner = match parse(src, tokens, pos, prec.0) {
                Ok(t) => t,
                Err(e) => {
                    return Err(e);
                },
            };
            lhs = Nodes::Negative(Box::new(inner));
        },
        TokenKind::Plus => {
            let prec = get_precedence(&TokenKind::Plus);
            *pos = *pos + 1;
            let inner = match parse(src, tokens, pos, prec.0) {
                Ok(t) => t,
                Err(e) => {
                    return Err(e);
                },
            };
            lhs = Nodes::Positive(Box::new(inner));
        },
        _ => {
            *pos = *pos + 1;
            let start = if token.offset >= 1 {
                token.offset as usize - 1
            } else {
                0
            };
            return Err(
                Diag::UnexpectedToken { src: src.to_owned(), span: Span { start, len: 1 } },
            );
        },
    }
    let ghost target = spec_parse(src@, toks, pos0, prev_precedence as int);
    assert(target == spec_parse_infix(src@, toks, *pos as int, lhs@, prev_precedence as int));
    loop
        invariant
            *pos <= tokens@.len(),
            pos0 < *pos as int,
            toks == tokens@.map_values(|t: Token| t@),
            target == spec_parse_infix(src@, toks, *pos as int, lhs@, prev_precedence as int),
        decreases tokens@.len() - *pos,
    {
        if *pos >= tokens.len() {
            return Ok(lhs);
        }
        let next_token = &tokens[*pos];
        match &next_token.kind {
            TokenKind::Plus | TokenKind::Minus | TokenKind::Div | TokenKind::Mod
                | TokenKind::Mult => {},
            _ => {
                return Ok(lhs);
            },
        }
        let prec = get_precedence(&next_token.kind);
        if prec.1 <= prev_precedence {
            return Ok(lhs);
        }
        let op_token = Token { kind: copy_op_kind(&next_token.kind), offset: next_token.offset };
        let ghost cur = *pos as int;
        *pos = *pos + 1;
        let right_node = match parse(src, tokens, pos, prec.1) {
            Ok(t) => t,
            Err(e) => {
                return Err(e);
            },
        };
        proof {
            lemma_parse_advances(src@, toks, cur + 1, prec.1 as int);
        }
        lhs = Nodes::Operator(
            OperatorNode { op: op_token, left: Box::new(lhs), right: Box::new(right_node) },
        );
    }
}

} // verus!
