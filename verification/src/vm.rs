use vstd::prelude::*;
use vstd::string::StrSliceExecFns;
use crate::diag::{Diag, Span, SpecDiag, SpecSpan};
use crate::stack::{Slot, SpecSlot, Stack};
use crate::value::{
    rat_add, rat_div, rat_mod, rat_mul, rat_neg, rat_sub, rat_wf, spec_format, spec_width, Rat,
    Value,
};
use crate::STACK_CAPACITY;

verus! {

/// An instruction as the specifications see it.
pub enum SpecOpcode {
    Add,
    Sub,
    Div,
    Mult,
    Nop,
    Mod,
    Neg,
    Num { offset: int, val: Rat },
    Ret,
}

/// One instruction of the stack machine.  `Num` pushes a value stamped
/// with the offset of the token it came from; the arithmetic opcodes pop
/// their operands and push the result; `Ret` ends the program.
#[derive(Debug)]
pub enum Opcode {
    Add,
    Sub,
    Div,
    Mult,
    Nop,
    Mod,
    Neg,
    Num(u8, Value),
    Ret,
}

impl View for Opcode {
    type V = SpecOpcode;

    open spec fn view(&self) -> SpecOpcode {
        match self {
            Opcode::Add => SpecOpcode::Add,
            Opcode::Sub => SpecOpcode::Sub,
            Opcode::Div => SpecOpcode::Div,
            Opcode::Mult => SpecOpcode::Mult,
            Opcode::Nop => SpecOpcode::Nop,
            Opcode::Mod => SpecOpcode::Mod,
            Opcode::Neg => SpecOpcode::Neg,
            Opcode::Num(offset, val) => SpecOpcode::Num { offset: *offset as int, val: val@ },
            Opcode::Ret => SpecOpcode::Ret,
        }
    }
}

/// An ordered, append-only instruction sequence: built once by the
/// compiler, read-only afterwards.
pub type Chunk = Vec<Opcode>;

/// The program as the specifications see it.
pub open spec fn chunk_view(c: Seq<Opcode>) -> Seq<SpecOpcode> {
    c.map_values(|o: Opcode| o@)
}

/// Every value a program's instructions carry is well formed.
pub open spec fn chunk_wf(c: Seq<SpecOpcode>) -> bool {
    forall|i: int|
        0 <= i < c.len() ==> (#[trigger] c[i] matches SpecOpcode::Num { val, .. } ==> rat_wf(val))
}

/// What one run of a program produces: the formatted result, or a fault.
pub enum RunResult {
    Returned(Seq<char>),
    Faulted(SpecDiag),
}

/// The reconstructed span of a division fault: from the estimated start of
/// the left operand up to the right operand's offset.  A best-effort guess
/// from the offsets the operands still carry, not exact text slicing.
pub open spec fn div_zero_span(a: SpecSlot, b_off: int) -> SpecSpan {
    let w = spec_width(a.val);
    let gap = if b_off >= a.offset {
        b_off - a.offset
    } else {
        0
    };
    let start = if a.offset >= w {
        a.offset - w
    } else {
        0
    };
    SpecSpan { start, len: gap + w }
}

/// The value an arithmetic opcode leaves for two operands, or the fault it
/// raises: division and remainder check their right operand for zero
/// before computing, every operation reports a result that cannot be
/// represented.
pub open spec fn binary_result(op: SpecOpcode, a: SpecSlot, b: SpecSlot, src: Seq<char>) -> Result<
    Rat,
    SpecDiag,
>
    recommends
        rat_wf(a.val),
        rat_wf(b.val),
{
    match op {
        SpecOpcode::Add => match rat_add(a.val, b.val) {
            Some(v) => Ok(v),
            None => Err(SpecDiag::ValueOverflow),
        },
        SpecOpcode::Sub => match rat_sub(a.val, b.val) {
            Some(v) => Ok(v),
            None => Err(SpecDiag::ValueOverflow),
        },
        SpecOpcode::Mult => match rat_mul(a.val, b.val) {
            Some(v) => Ok(v),
            None => Err(SpecDiag::ValueOverflow),
        },
        SpecOpcode::Div => if b.val.n == 0 {
            Err(SpecDiag::DivisionByZero { src, span: div_zero_span(a, b.offset) })
        } else {
            match rat_div(a.val, b.val) {
                Some(v) => Ok(v),
                None => Err(SpecDiag::ValueOverflow),
            }
        },
        SpecOpcode::Mod => if b.val.n == 0 {
            Err(SpecDiag::DivisionByZero { src, span: div_zero_span(a, b.offset) })
        } else {
            match rat_mod(a.val, b.val) {
                Some(v) => Ok(v),
                None => Err(SpecDiag::ValueOverflow),
            }
        },
        _ => Err(SpecDiag::ValueOverflow),
    }
}

pub open spec fn is_binary_op(op: SpecOpcode) -> bool {
    op is Add || op is Sub || op is Mult || op is Div || op is Mod
}

/// The machine, as a function: what running the program from instruction
/// `i` with the given stack produces.  Running off the end of the program
/// is the missing-return fault.
pub open spec fn run_from(
    chunk: Seq<SpecOpcode>,
    i: int,
    stack: Seq<SpecSlot>,
    src: Seq<char>,
) -> RunResult
    recommends
        0 <= i <= chunk.len(),
        chunk_wf(chunk),
    decreases chunk.len() - i,
{
    if i < 0 || i >= chunk.len() {
        RunResult::Faulted(SpecDiag::NoReturnOpcode)
    } else {
        match chunk[i] {
            SpecOpcode::Num { offset, val } => {
                if stack.len() >= STACK_CAPACITY {
                    RunResult::Faulted(SpecDiag::StackOverflow)
                } else {
                    run_from(chunk, i + 1, stack.push(SpecSlot { offset, val }), src)
                }
            },
            SpecOpcode::Nop => run_from(chunk, i + 1, stack, src),
            SpecOpcode::Neg => {
                if stack.len() == 0 {
                    RunResult::Faulted(SpecDiag::StackUnderflow)
                } else {
                    let top = stack.last();
                    match rat_neg(top.val) {
                        Some(v) => run_from(
                            chunk,
                            i + 1,
                            stack.drop_last().push(SpecSlot { offset: top.offset, val: v }),
                            src,
                        ),
                        None => RunResult::Faulted(SpecDiag::ValueOverflow),
                    }
                }
            },
            SpecOpcode::Ret => {
                if stack.len() == 0 {
                    RunResult::Faulted(SpecDiag::StackUnderflow)
                } else {
                    RunResult::Returned(spec_format(stack.last().val))
                }
            },
            _ => {
                if stack.len() <= 1 {
                    RunResult::Faulted(SpecDiag::StackUnderflow)
                } else {
                    let b = stack.last();
                    let a = stack[stack.len() - 2];
                    match binary_result(chunk[i], a, b, src) {
                        Ok(v) => run_from(
                            chunk,
                            i + 1,
                            stack.drop_last().drop_last().push(SpecSlot { offset: 0, val: v }),
                            src,
                        ),
                        Err(d) => RunResult::Faulted(d),
                    }
                }
            },
        }
    }
}

/// Applies an arithmetic opcode to its two popped operands.
fn apply_binary(op: &Opcode, a: Slot, b: Slot, src: &str) -> (r: Result<Value, Diag>)
    requires
        is_binary_op(op@),
        rat_wf(a@.val),
        rat_wf(b@.val),
    ensures
        match binary_result(op@, a@, b@, src@) {
            Ok(v) => r matches Ok(x) && x.wf() && x@ == v,
            Err(d) => r matches Err(e) && e@ == d,
        },
{
    let div_like = matches!(op, Opcode::Div | Opcode::Mod);
    if div_like && b.value.is_zero() {
        let w = a.value.width_estimate();
        let gap: usize = if b.offset >= a.offset {
            (b.offset - a.offset) as usize
        } else {
            0
        };
        let start: usize = if a.offset >= w {
            (a.offset - w) as usize
        } else {
            0
        };
        return Err(
            Diag::DivisionByZero { src: src.to_owned(), span: Span { start, len: gap + w as usize } },
        );
    }
    let out = match op {
        Opcode::Add => a.value.add(&b.value),
        Opcode::Sub => a.value.sub(&b.value),
        Opcode::Mult => a.value.mul(&b.value),
        Opcode::Div => a.value.div(&b.value),
        Opcode::Mod => a.value.rem(&b.value),
        _ => {
            assert(false);
            None
        },
    };
    match out {
        Some(v) => Ok(v),
        None => Err(Diag::ValueOverflow),
    }
}

/// The virtual machine: a program, its value stack, an instruction
/// pointer, and the line the program came from, kept only so that faults
/// can point back into it.
pub struct Vm<'a> {
    chunk: Chunk,
    stack: Stack,
    ip: usize,
    src: &'a str,
}

impl<'a> Vm<'a> {
    pub closed spec fn spec_chunk(&self) -> Seq<SpecOpcode> {
        chunk_view(self.chunk@)
    }

    pub closed spec fn spec_src(&self) -> Seq<char> {
        self.src@
    }

    pub closed spec fn spec_ip(&self) -> int {
        self.ip as int
    }

    pub closed spec fn spec_stack(&self) -> Seq<SpecSlot> {
        self.stack@
    }

    pub open spec fn wf(&self) -> bool {
        chunk_wf(self.spec_chunk()) && self.spec_stack().len() <= STACK_CAPACITY && (forall|i: int|
            0 <= i < self.spec_stack().len() ==> rat_wf(#[trigger] self.spec_stack()[i].val))
    }

    /// Binds a program to the line it was compiled from and a fresh stack.
    pub fn new(source: &'a str, chunk: Chunk) -> (r: Self)
        requires
            chunk@.len() > 0,
            chunk_wf(chunk_view(chunk@)),
        ensures
            r.wf(),
            r.spec_chunk() == chunk_view(chunk@),
            r.spec_src() == source@,
            r.spec_ip() == 0,
            r.spec_stack() =~= Seq::<SpecSlot>::empty(),
    {
        Self { chunk, stack: Stack::new(), ip: 0, src: source }
    }

    /// Runs the program to its first `Ret` and formats the returned value;
    /// any fault aborts the run and is reported instead.  One machine runs
    /// its program once.
    #[verifier::loop_isolation(false)]
    pub fn eval(&mut self) -> (r: Result<String, Diag>)
        requires
            old(self).wf(),
            old(self).spec_ip() == 0,
            old(self).spec_stack().len() == 0,
        ensures
            final(self).spec_chunk() == old(self).spec_chunk(),
            final(self).spec_src() == old(self).spec_src(),
            match run_from(
                old(self).spec_chunk(),
                0,
                Seq::<SpecSlot>::empty(),
                old(self).spec_src(),
            ) {
                RunResult::Returned(s) => r matches Ok(out) && out@ == s,
                RunResult::Faulted(d) => r matches Err(e) && e@ == d,
            },
    {
        let ghost target = run_from(
            old(self).spec_chunk(),
            0,
            Seq::<SpecSlot>::empty(),
            old(self).spec_src(),
        );
        assert(self.spec_stack() =~= Seq::<SpecSlot>::empty());
        if self.ip >= self.chunk.len() {
            return Err(Diag::NoReturnOpcode);
        }
        loop
            invariant
                self.wf(),
                self.spec_chunk() == old(self).spec_chunk(),
                self.spec_src() == old(self).spec_src(),
                self.spec_ip() <= self.spec_chunk().len(),
                target == run_from(
                    self.spec_chunk(),
                    self.spec_ip(),
                    self.spec_stack(),
                    self.spec_src(),
                ),
            decreases self.spec_chunk().len() - self.spec_ip(),
        {
            if self.ip >= self.chunk.len() {
                return Err(Diag::NoReturnOpcode);
            }
            let ghost stack0 = self.spec_stack();
            let instruction = &self.chunk[self.ip];
            let ghost spec_op = self.spec_chunk()[self.spec_ip()];
            assert(spec_op == instruction@);
            self.ip = self.ip + 1;
            match instruction {
                Opcode::Num(offset, num) => {
                    match self.stack.push(Slot::new(*offset, *num)) {
                        Ok(()) => {},
                        Err(e) => {
                            return Err(e);
                        },
                    }
                },
                Opcode::Nop => {},
                Opcode::Neg => {
                    let slot = match self.stack.pop() {
                        Ok(s) => s,
                        Err(e) => {
                            return Err(e);
                        },
                    };
                    let v = match slot.value.neg() {
                        Some(v) => v,
                        None => {
                            return Err(Diag::ValueOverflow);
                        },
                    };
                    match self.stack.push(Slot::new(slot.offset, v)) {
                        Ok(()) => {},
                        Err(e) => {
                            return Err(e);
                        },
                    }
                    assert(self.spec_stack() =~= stack0.drop_last().push(
                        SpecSlot { offset: stack0.last().offset, val: rat_neg(stack0.last().val)->0 },
                    ));
                },
                Opcode::Ret => {
                    let slot = match self.stack.pop() {
                        Ok(s) => s,
                        Err(e) => {
                            return Err(e);
                        },
                    };
                    let text = slot.value.format();
                    return Ok(text);
                },
                _ => {
                    let b = match self.stack.pop() {
                        Ok(s) => s,
                        Err(e) => {
                            return Err(e);
                        },
                    };
                    let a = match self.stack.pop() {
                        Ok(s) => s,
                        Err(e) => {
                            return Err(e);
                        },
                    };
                    let v = match apply_binary(instruction, a, b, self.src) {
                        Ok(v) => v,
                        Err(e) => {
                            return Err(e);
                        },
                    };
                    match self.stack.push(Slot::new(0, v)) {
                        Ok(()) => {},
                        Err(e) => {
                            return Err(e);
                        },
                    }
                    assert(self.spec_stack() =~= stack0.drop_last().drop_last().push(
                        SpecSlot { offset: 0, val: binary_result(spec_op, a@, b@, self.spec_src())->Ok_0 },
                    ));
                },
            }
        }
    }
}

} // verus!
