use vstd::prelude::*;

verus! {

/// A span in the source line for caret-style reporting: a start offset and
/// a length, both in characters.
#[derive(Clone, Copy, Debug, PartialEq, Eq, Structural)]
pub struct Span {
    pub start: usize,
    pub len: usize,
}

/// A span as the specifications see it.
pub struct SpecSpan {
    pub start: int,
    pub len: int,
}

impl View for Span {
    type V = SpecSpan;

    open spec fn view(&self) -> SpecSpan {
        SpecSpan { start: self.start as int, len: self.len as int }
    }
}

/// A diagnostic as the specifications see it: the carried source text is a
/// character sequence and the span is over unbounded integers.
pub enum SpecDiag {
    UnexpectedEof,
    UnexpectedToken { src: Seq<char>, span: SpecSpan },
    NumParseError { src: Seq<char>, span: SpecSpan },
    UnclosedBracket { src: Seq<char>, span: SpecSpan },
    DivisionByZero { src: Seq<char>, span: SpecSpan },
    StackOverflow,
    StackUnderflow,
    NoReturnOpcode,
    ValueOverflow,
}

/// The uniform error currency of the pipeline.  Every failing stage returns
/// one of these; nothing panics.  Located variants carry the source line
/// and the span they point at.
#[derive(Clone, Debug, PartialEq, Eq)]
pub enum Diag {
    /// A token was required but the input was exhausted.
    UnexpectedEof,
    /// A token that can neither start nor continue an expression.
    UnexpectedToken { src: String, span: Span },
    /// Number text that does not denote a representable number.
    NumParseError { src: String, span: Span },
    /// A parenthesis was opened and never closed.
    UnclosedBracket { src: String, span: Span },
    /// The right operand of a division or remainder was zero.
    DivisionByZero { src: String, span: Span },
    /// A push onto a full value stack.
    StackOverflow,
    /// A pop from an empty value stack.
    StackUnderflow,
    /// The program ran out of instructions without returning.
    NoReturnOpcode,
    /// An exact intermediate result left the machine range.
    ValueOverflow,
}

impl View for Diag {
    type V = SpecDiag;

    open spec fn view(&self) -> SpecDiag {
        match self {
            Diag::UnexpectedEof => SpecDiag::UnexpectedEof,
            Diag::UnexpectedToken { src, span } => SpecDiag::UnexpectedToken {
                src: src@,
                span: span@,
            },
            Diag::NumParseError { src, span } => SpecDiag::NumParseError {
                src: src@,
                span: span@,
            },
            Diag::UnclosedBracket { src, span } => SpecDiag::UnclosedBracket {
                src: src@,
                span: span@,
            },
            Diag::DivisionByZero { src, span } => SpecDiag::DivisionByZero {
                src: src@,
                span: span@,
            },
            Diag::StackOverflow => SpecDiag::StackOverflow,
            Diag::StackUnderflow => SpecDiag::StackUnderflow,
            Diag::NoReturnOpcode => SpecDiag::NoReturnOpcode,
            Diag::ValueOverflow => SpecDiag::ValueOverflow,
        }
    }
}

pub open spec fn spec_message(d: SpecDiag) -> Seq<char> {
    match d {
        SpecDiag::UnexpectedEof => "Error: Unexpected Eof!"@,
        SpecDiag::UnexpectedToken { .. } => "Unexpected Token!"@,
        SpecDiag::NumParseError { .. } => "Failed to parse number!"@,
        SpecDiag::UnclosedBracket { .. } => "Unclosed brackets!"@,
        SpecDiag::DivisionByZero { .. } => "Division by zero!"@,
        SpecDiag::StackOverflow => "Stack Overflow"@,
        SpecDiag::StackUnderflow => "Stack Underflow"@,
        SpecDiag::NoReturnOpcode => "No return opcode emitted!"@,
        SpecDiag::ValueOverflow => "Value out of range!"@,
    }
}

pub open spec fn spec_help(d: SpecDiag) -> Option<Seq<char>> {
    match d {
        SpecDiag::UnexpectedEof => Some(
            "try writing complete expression(type help for more info)"@,
        ),
        SpecDiag::UnexpectedToken { .. } => Some(
            "Enter help command for a list of valid operations"@,
        ),
        SpecDiag::NumParseError { .. } => Some("try entering a valid number"@),
        SpecDiag::UnclosedBracket { .. } => Some("try closing brackets next time?"@),
        SpecDiag::DivisionByZero { .. } => Some("try to divide by anything other than that"@),
        SpecDiag::StackOverflow => Some("Please report this issue to the maintainer"@),
        SpecDiag::StackUnderflow => Some("Please report this issue to the maintainer"@),
        SpecDiag::NoReturnOpcode => None,
        SpecDiag::ValueOverflow => Some("try smaller numbers"@),
    }
}

pub open spec fn spec_span(d: SpecDiag) -> Option<SpecSpan> {
    match d {
        SpecDiag::UnexpectedToken { span, .. } => Some(span),
        SpecDiag::NumParseError { span, .. } => Some(span),
        SpecDiag::UnclosedBracket { span, .. } => Some(span),
        SpecDiag::DivisionByZero { span, .. } => Some(span),
        _ => None,
    }
}

impl Diag {
    /// The human-readable description of the failure.
    pub fn message(&self) -> (r: &'static str)
        ensures
            r@ == spec_message(self@),
    {
        match self {
            Diag::UnexpectedEof => "Error: Unexpected Eof!",
            Diag::UnexpectedToken { .. } => "Unexpected Token!",
            Diag::NumParseError { .. } => "Failed to parse number!",
            Diag::UnclosedBracket { .. } => "Unclosed brackets!",
            Diag::DivisionByZero { .. } => "Division by zero!",
            Diag::StackOverflow => "Stack Overflow",
            Diag::StackUnderflow => "Stack Underflow",
            Diag::NoReturnOpcode => "No return opcode emitted!",
            Diag::ValueOverflow => "Value out of range!",
        }
    }

    /// The actionable hint that accompanies the message, when there is one.
    pub fn help(&self) -> (r: Option<&'static str>)
        ensures
            match spec_help(self@) {
                Some(h) => r matches Some(s) && s@ == h,
                None => r is None,
            },
    {
        match self {
            Diag::UnexpectedEof => Some("try writing complete expression(type help for more info)"),
            Diag::UnexpectedToken { .. } => Some("Enter help command for a list of valid operations"),
            Diag::NumParseError { .. } => Some("try entering a valid number"),
            Diag::UnclosedBracket { .. } => Some("try closing brackets next time?"),
            Diag::DivisionByZero { .. } => Some("try to divide by anything other than that"),
            Diag::StackOverflow => Some("Please report this issue to the maintainer"),
            Diag::StackUnderflow => Some("Please report this issue to the maintainer"),
            Diag::NoReturnOpcode => None,
            Diag::ValueOverflow => Some("try smaller numbers"),
        }
    }

    /// The span the diagnostic points at, when it carries one.
    pub fn span(&self) -> (r: Option<Span>)
        ensures
            match spec_span(self@) {
                Some(sp) => r matches Some(s) && s@ == sp,
                None => r is None,
            },
    {
        match self {
            Diag::UnexpectedToken { span, .. } => Some(*span),
            Diag::NumParseError { span, .. } => Some(*span),
            Diag::UnclosedBracket { span, .. } => Some(*span),
            Diag::DivisionByZero { span, .. } => Some(*span),
            _ => None,
        }
    }
}

} // verus!
