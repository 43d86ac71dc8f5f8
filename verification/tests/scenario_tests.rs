use brainfuck::compiler::Compiler;
use brainfuck::interpreter::Interpreter;
use brainfuck::virtual_machine::VirtualMachine;
use brainfuck::FlushBehavior;

const BUDGET: usize = usize::MAX;

const HELLO_WORLD: &str = "+[>[<-[]>+[>+++>[+++++++++++>][>]-[<]>-]]++++++++++<]>>>>>>----.<<+++.<-..+++.<-.>>>.<<.+++.------.>-.<<+.<.";

/// Run one source program on both executors and check that they agree on
/// the output byte stream.
fn run_both(src: &str, input: &[u8]) -> (Interpreter, VirtualMachine) {
    let mut interpreter = Interpreter::new(src.as_bytes().to_vec(), input.to_vec());
    assert_eq!(interpreter.execute(FlushBehavior::OnEnd, BUDGET), Ok(true));

    let instructions = Compiler::new(src.as_bytes().to_vec()).compile().unwrap();
    let mut vm = VirtualMachine::new(instructions, input.to_vec());
    assert_eq!(vm.execute(FlushBehavior::OnEnd, BUDGET), Ok(true));

    assert_eq!(interpreter.output(), vm.output());
    (interpreter, vm)
}

#[test]
fn scenario_copy_loop() {
    let (interpreter, vm) = run_both("+[->+<]", &[]);
    assert_eq!(interpreter.output(), Vec::<u8>::new());
    assert_eq!(interpreter.data[0], 0);
    assert_eq!(interpreter.data[1], 1);
    assert_eq!(vm.data[0], 0);
    assert_eq!(vm.data[1], 1);
}

#[test]
fn scenario_echo_three_bytes() {
    let (interpreter, vm) = run_both(",.,.,.", &[0x41, 0x42, 0x43]);
    assert_eq!(interpreter.output(), vec![0x41, 0x42, 0x43]);
    assert_eq!(vm.output(), vec![0x41, 0x42, 0x43]);
}

#[test]
fn scenario_add_across_cells() {
    let (interpreter, vm) = run_both("++>+++<[->+<]", &[]);
    assert_eq!(interpreter.data[0], 0);
    assert_eq!(interpreter.data[1], 5);
    assert_eq!(vm.data[0], 0);
    assert_eq!(vm.data[1], 5);
}

#[test]
fn scenario_hello_world_equivalence() {
    let (interpreter, vm) = run_both(HELLO_WORLD, &[]);
    assert_eq!(String::from_utf8(interpreter.output()), Ok("Hello World!\n".into()));
    assert_eq!(String::from_utf8(vm.output()), Ok("Hello World!\n".into()));
}

#[test]
fn scenario_infinite_loop_bounded() {
    // `+[]` never terminates: any bounded budget runs out with no output.
    let mut interpreter = Interpreter::new(b"+[]".to_vec(), Vec::new());
    assert_eq!(interpreter.execute(FlushBehavior::OnWrite, 100000), Ok(false));
    assert_eq!(interpreter.output(), Vec::<u8>::new());

    let instructions = Compiler::new(b"+[]".to_vec()).compile().unwrap();
    let mut vm = VirtualMachine::new(instructions, Vec::new());
    assert_eq!(vm.execute(FlushBehavior::OnWrite, 100000), Ok(false));
    assert_eq!(vm.output(), Vec::<u8>::new());
}

#[test]
fn scenario_comments_are_skipped() {
    // Comment bytes, including multi-byte encoded characters, change
    // nothing.
    let commented = "add two + + then emit . that is all";
    let (interpreter, vm) = run_both(commented, &[]);
    assert_eq!(interpreter.output(), vec![2]);
    assert_eq!(vm.output(), vec![2]);
}

#[test]
fn scenario_adjacent_reads_consume_equally() {
    // A run of reads consumes one input byte per read on both executors:
    // the cell ends with the last byte read.
    let (interpreter, vm) = run_both(",,.", &[0x11, 0x22]);
    assert_eq!(interpreter.data[0], 0x22);
    assert_eq!(vm.data[0], 0x22);
    assert_eq!(interpreter.rp, 2);
    assert_eq!(vm.rp, 2);
    assert_eq!(interpreter.output(), vec![0x22]);
}
