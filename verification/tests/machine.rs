use calc::diag::Diag;
use calc::stack::{Slot, Stack};
use calc::value::Value;
use calc::vm::{Chunk, Opcode, Vm};

fn binary_chunk(op_code: Opcode) -> Chunk {
    let mut chunk = Chunk::new();
    chunk.push(Opcode::Num(0, Value::from_int(20)));
    chunk.push(Opcode::Num(1, Value::from_int(10)));
    chunk.push(op_code);
    chunk.push(Opcode::Ret);
    chunk
}

#[test]
fn stack_operations() {
    let mut stack = Stack::new();
    stack.push(Slot::new(0, Value::from_int(1))).unwrap();
    stack.push(Slot::new(0, Value::from_int(2))).unwrap();
    stack.push(Slot::new(0, Value::from_int(3))).unwrap();
    let _ = stack.pop().unwrap();
    assert_eq!(stack.depth(), 2);
}

#[test]
fn vm_add() {
    let chunk = binary_chunk(Opcode::Add);
    let mut vm = Vm::new("20 + 10", chunk);
    let result = vm.eval().unwrap();
    assert_eq!(result, "30");
}

#[test]
fn vm_sub() {
    let chunk = binary_chunk(Opcode::Sub);
    let mut vm = Vm::new("20 - 10", chunk);
    let result = vm.eval().unwrap();
    assert_eq!(result, "10");
}

#[test]
fn vm_div() {
    let chunk = binary_chunk(Opcode::Div);
    let mut vm = Vm::new("20 / 10", chunk);
    let result = vm.eval().unwrap();
    assert_eq!(result, "2");
}

#[test]
fn vm_mult() {
    let chunk = binary_chunk(Opcode::Mult);
    let mut vm = Vm::new("20 * 10", chunk);
    let result = vm.eval().unwrap();
    assert_eq!(result, "200");
}

#[test]
fn vm_mod() {
    let chunk = binary_chunk(Opcode::Mod);
    let mut vm = Vm::new("20 % 10", chunk);
    let result = vm.eval().unwrap();
    assert_eq!(result, "0");
}

#[test]
fn vm_neg() {
    let mut chunk = Chunk::new();
    chunk.push(Opcode::Num(0, Value::from_int(20)));
    chunk.push(Opcode::Neg);
    chunk.push(Opcode::Ret);
    let mut vm = Vm::new("-20", chunk);
    let result = vm.eval().unwrap();
    assert_eq!(result, "-20");
}

#[test]
fn stack_overflow_past_capacity() {
    let mut stack = Stack::new();
    for i in 0..1024i64 {
        stack.push(Slot::new(0, Value::from_int(i))).unwrap();
    }
    let overflow = stack.push(Slot::new(0, Value::from_int(1024)));
    assert_eq!(overflow, Err(Diag::StackOverflow));
}

#[test]
fn stack_underflow_on_empty_pop() {
    let mut stack = Stack::new();
    match stack.pop() {
        Err(Diag::StackUnderflow) => {}
        other => panic!("expected an underflow, got {:?}", other),
    }
}

#[test]
fn empty_program_reports_missing_return() {
    let mut chunk = Chunk::new();
    chunk.push(Opcode::Num(0, Value::from_int(1)));
    let mut vm = Vm::new("1", chunk);
    assert_eq!(vm.eval(), Err(Diag::NoReturnOpcode));
}
