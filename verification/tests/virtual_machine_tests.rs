use brainfuck::compiler::Compiler;
use brainfuck::compiler::Instruction;
use brainfuck::virtual_machine::VirtualMachine;
use brainfuck::ExecFault;
use brainfuck::FlushBehavior;
use brainfuck::SinkEvent;
use brainfuck::DATA_SIZE;

const BUDGET: usize = usize::MAX;

const HELLO_WORLD: &str = "+[>[<-[]>+[>+++>[+++++++++++>][>]-[<]>-]]++++++++++<]>>>>>>----.<<+++.<-..+++.<-.>>>.<<.+++.------.>-.<<+.<.";

fn compile(src: &str) -> Vec<Instruction> {
    Compiler::new(src.as_bytes().to_vec()).compile().unwrap()
}

#[test]
fn virtual_machine_test_program_hello_world() {
    let instructions = compile(HELLO_WORLD);

    let mut vm = VirtualMachine::new(instructions, Vec::new());
    assert_eq!(vm.execute(FlushBehavior::OnEnd, BUDGET), Ok(true));

    assert_eq!(String::from_utf8(vm.output()), Ok("Hello World!\n".into()));
}

#[test]
fn test_vm_tape_boundary() {
    // 30000 folded advances fault; 29999 do not.
    let over = compile(&">".repeat(DATA_SIZE));
    assert_eq!(over, vec![Instruction::IncDP(DATA_SIZE)]);
    let mut vm = VirtualMachine::new(over, Vec::new());
    assert_eq!(vm.execute(FlushBehavior::OnEnd, BUDGET), Err(ExecFault::TapeFault));

    let under = compile(&">".repeat(DATA_SIZE - 1));
    let mut vm = VirtualMachine::new(under, Vec::new());
    assert_eq!(vm.execute(FlushBehavior::OnEnd, BUDGET), Ok(true));
    assert_eq!(vm.dp, DATA_SIZE - 1);
}

#[test]
fn test_vm_cell_wrapping() {
    let mut down = VirtualMachine::new(compile("-"), Vec::new());
    assert_eq!(down.execute(FlushBehavior::OnEnd, BUDGET), Ok(true));
    assert_eq!(down.data[0], 255);

    let mut up = VirtualMachine::new(compile(&"+".repeat(256)), Vec::new());
    assert_eq!(up.execute(FlushBehavior::OnEnd, BUDGET), Ok(true));
    assert_eq!(up.data[0], 0);

    // A folded count acts modulo 256.
    let mut folded = VirtualMachine::new(compile(&"+".repeat(300)), Vec::new());
    assert_eq!(folded.execute(FlushBehavior::OnEnd, BUDGET), Ok(true));
    assert_eq!(folded.data[0], 44);
}

#[test]
fn test_vm_folded_write_replays() {
    // A folded write of count 3 writes the cell three times.
    let mut vm = VirtualMachine::new(compile("+..."), Vec::new());
    assert_eq!(vm.execute(FlushBehavior::OnEnd, BUDGET), Ok(true));
    assert_eq!(vm.output(), vec![1, 1, 1]);
}

#[test]
fn test_vm_end_of_input() {
    let mut vm = VirtualMachine::new(compile(",>,"), vec![9]);
    assert_eq!(vm.execute(FlushBehavior::OnEnd, BUDGET), Err(ExecFault::EndOfInput));
}

#[test]
fn test_flush_on_write_trace() {
    let mut vm = VirtualMachine::new(compile("+.."), Vec::new());
    assert_eq!(vm.execute(FlushBehavior::OnWrite, BUDGET), Ok(true));
    assert_eq!(
        vm.events,
        vec![SinkEvent::Byte(1), SinkEvent::Flush, SinkEvent::Byte(1), SinkEvent::Flush]
    );
}

#[test]
fn test_flush_on_write_folded_trace() {
    // A folded write flushes once per byte under OnWrite.
    let mut vm = VirtualMachine::new(compile("+.."), Vec::new());
    // "+.." compiles to a folded WriteByte(2); the trace must still
    // alternate byte and flush.
    assert_eq!(vm.instructions, vec![Instruction::IncByteAtDP(1), Instruction::WriteByte(2)]);
    assert_eq!(vm.execute(FlushBehavior::OnWrite, BUDGET), Ok(true));
    assert_eq!(
        vm.events,
        vec![SinkEvent::Byte(1), SinkEvent::Flush, SinkEvent::Byte(1), SinkEvent::Flush]
    );
}

#[test]
fn test_flush_on_end_trace() {
    let mut vm = VirtualMachine::new(compile("+.."), Vec::new());
    assert_eq!(vm.execute(FlushBehavior::OnEnd, BUDGET), Ok(true));
    assert_eq!(vm.events, vec![SinkEvent::Byte(1), SinkEvent::Byte(1), SinkEvent::Flush]);
}

#[test]
fn test_flush_disabled_trace() {
    let mut vm = VirtualMachine::new(compile("+.."), Vec::new());
    assert_eq!(vm.execute(FlushBehavior::Disabled, BUDGET), Ok(true));
    assert_eq!(vm.events, vec![SinkEvent::Byte(1), SinkEvent::Byte(1)]);
}
