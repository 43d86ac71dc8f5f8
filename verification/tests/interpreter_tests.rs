use brainfuck::interpreter::Interpreter;
use brainfuck::ExecFault;
use brainfuck::SinkEvent;
use brainfuck::FlushBehavior;
use brainfuck::DATA_SIZE;

const BUDGET: usize = usize::MAX;

const HELLO_WORLD: &str = "+[>[<-[]>+[>+++>[+++++++++++>][>]-[<]>-]]++++++++++<]>>>>>>----.<<+++.<-..+++.<-.>>>.<<.+++.------.>-.<<+.<.";

#[test]
fn test_increment_dp() {
    let mut interpreter = Interpreter::new(b">".to_vec(), Vec::new());
    assert_eq!(interpreter.dp, 0);

    assert_eq!(interpreter.execute(FlushBehavior::OnEnd, BUDGET), Ok(true));
    assert_eq!(interpreter.dp, 1);
}

#[test]
fn test_increment_dp_fault() {
    // Incrementing `dp` when `dp` is already at the last cell is a tape
    // fault.
    let code = ">".repeat(DATA_SIZE).into_bytes();
    let mut interpreter = Interpreter::new(code, Vec::new());
    assert_eq!(interpreter.execute(FlushBehavior::OnEnd, BUDGET), Err(ExecFault::TapeFault));
    assert_eq!(interpreter.dp, DATA_SIZE - 1);
}

#[test]
fn test_increment_dp_boundary() {
    // One less than the tape size runs to completion.
    let code = ">".repeat(DATA_SIZE - 1).into_bytes();
    let mut interpreter = Interpreter::new(code, Vec::new());
    assert_eq!(interpreter.execute(FlushBehavior::OnEnd, BUDGET), Ok(true));
    assert_eq!(interpreter.dp, DATA_SIZE - 1);
}

#[test]
fn test_decrement_dp_fault() {
    // Decrementing `dp` when `dp` is 0 is a tape fault.
    let mut interpreter = Interpreter::new(b"<".to_vec(), Vec::new());
    assert_eq!(interpreter.execute(FlushBehavior::OnEnd, BUDGET), Err(ExecFault::TapeFault));
}

#[test]
fn test_increment_byte_at_dp() {
    let mut interpreter = Interpreter::new(b"+>++".to_vec(), Vec::new());
    assert_eq!(interpreter.execute(FlushBehavior::OnEnd, BUDGET), Ok(true));

    assert_eq!(interpreter.data[0], 1);
    assert_eq!(interpreter.data[1], 2);
}

#[test]
fn test_decrement_byte_at_dp() {
    let mut interpreter = Interpreter::new(b"->--".to_vec(), Vec::new());
    assert_eq!(interpreter.execute(FlushBehavior::OnEnd, BUDGET), Ok(true));

    // Wrapping underflow because the tape starts zeroed.
    assert_eq!(interpreter.data[0], 255);
    assert_eq!(interpreter.data[1], 254);
}

#[test]
fn test_cell_wrapping_round_trip() {
    // 255 increments followed by one more wrap back to zero.
    let mut up = Interpreter::new("+".repeat(256).into_bytes(), Vec::new());
    assert_eq!(up.execute(FlushBehavior::OnEnd, BUDGET), Ok(true));
    assert_eq!(up.data[0], 0);
}

#[test]
fn test_output_byte_at_dp() {
    let mut interpreter = Interpreter::new(b".+.".to_vec(), Vec::new());
    assert_eq!(interpreter.execute(FlushBehavior::OnEnd, BUDGET), Ok(true));

    let writer = interpreter.output();
    assert_eq!(writer[0], 0);
    assert_eq!(writer[1], 1);
}

#[test]
fn test_input_byte_at_dp() {
    let mut interpreter = Interpreter::new(b",>,>,".to_vec(), vec![1, 2, 3]);
    assert_eq!(interpreter.execute(FlushBehavior::OnEnd, BUDGET), Ok(true));

    assert_eq!(interpreter.data[0], 1);
    assert_eq!(interpreter.data[1], 2);
    assert_eq!(interpreter.data[2], 3);
}

#[test]
fn test_end_of_input_fault() {
    let mut interpreter = Interpreter::new(b",,".to_vec(), vec![7]);
    assert_eq!(interpreter.execute(FlushBehavior::OnEnd, BUDGET), Err(ExecFault::EndOfInput));
    assert_eq!(interpreter.data[0], 7);
}

#[test]
fn test_loop_skip_to_back() {
    // Skip `+` because `data[0]` is 0, then at `]` do not jump back because
    // `data[0]` is still 0.
    let mut interpreter = Interpreter::new(b"[+]".to_vec(), Vec::new());
    assert_eq!(interpreter.execute(FlushBehavior::OnEnd, BUDGET), Ok(true));

    assert_eq!(interpreter.data[0], 0);
}

#[test]
fn test_loop_skip_to_front() {
    // Increment `data[0]` to 2, `[` executes `.-` because it is not 0,
    // then at `]` jump back to `.` because `data[0]` is not 0.
    let mut interpreter = Interpreter::new(b"++[.-]".to_vec(), Vec::new());
    assert_eq!(interpreter.execute(FlushBehavior::OnEnd, BUDGET), Ok(true));

    assert_eq!(interpreter.output(), vec![2, 1]);
}

#[test]
fn test_unmatched_brackets_at_runtime() {
    // A taken opener without a closer.
    let mut open = Interpreter::new(b"[".to_vec(), Vec::new());
    assert_eq!(open.execute(FlushBehavior::OnEnd, BUDGET), Err(ExecFault::UnmatchedLoopBegin));

    // A taken closer without an opener.
    let mut close = Interpreter::new(b"+]".to_vec(), Vec::new());
    assert_eq!(close.execute(FlushBehavior::OnEnd, BUDGET), Err(ExecFault::UnmatchedLoopEnd));
}

#[test]
fn interpreter_test_program_hello_world() {
    let mut interpreter = Interpreter::new(HELLO_WORLD.as_bytes().to_vec(), Vec::new());
    assert_eq!(interpreter.execute(FlushBehavior::OnEnd, BUDGET), Ok(true));

    assert_eq!(String::from_utf8(interpreter.output()), Ok("Hello World!\n".into()));
}

#[test]
fn test_interpreter_flush_traces() {
    let mut on_write = Interpreter::new(b"+..".to_vec(), Vec::new());
    assert_eq!(on_write.execute(FlushBehavior::OnWrite, BUDGET), Ok(true));
    assert_eq!(
        on_write.events,
        vec![SinkEvent::Byte(1), SinkEvent::Flush, SinkEvent::Byte(1), SinkEvent::Flush]
    );

    let mut on_end = Interpreter::new(b"+..".to_vec(), Vec::new());
    assert_eq!(on_end.execute(FlushBehavior::OnEnd, BUDGET), Ok(true));
    assert_eq!(on_end.events, vec![SinkEvent::Byte(1), SinkEvent::Byte(1), SinkEvent::Flush]);

    let mut disabled = Interpreter::new(b"+..".to_vec(), Vec::new());
    assert_eq!(disabled.execute(FlushBehavior::Disabled, BUDGET), Ok(true));
    assert_eq!(disabled.events, vec![SinkEvent::Byte(1), SinkEvent::Byte(1)]);
}
