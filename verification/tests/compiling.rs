use calc::compiler::compile;
use calc::vm::Vm;

#[test]
fn reg_num_compilation() {
    let source = "(1 + 2) * 3";
    let chunk = compile(source).unwrap();
    let mut vm = Vm::new(source, chunk);
    let result = vm.eval().unwrap();
    assert_eq!(result, "9");
}

#[test]
fn neg_num_compilation() {
    let source = "-(3 + 2)";
    let chunk = compile(source).unwrap();
    let mut vm = Vm::new(source, chunk);
    let result = vm.eval().unwrap();
    assert_eq!(result, "-5");
}

#[test]
fn pos_num_compilation() {
    let source = "+(3 + 2)";
    let chunk = compile(source).unwrap();
    let mut vm = Vm::new(source, chunk);
    let result = vm.eval().unwrap();
    assert_eq!(result, "5");
}
