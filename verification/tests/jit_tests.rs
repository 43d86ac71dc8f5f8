use brainfuck::compiler::check_well_formed;
use brainfuck::compiler::Compiler;
use brainfuck::compiler::Instruction;
use brainfuck::jit::JitCompiler;
use brainfuck::jit::JitError;
use brainfuck::jit::MachineCode;

const HELLO_WORLD: &str = "+[>[<-[]>+[>+++>[+++++++++++>][>]-[<]>-]]++++++++++<]>>>>>>----.<<+++.<-..+++.<-.>>>.<<.+++.------.>-.<<+.<.";

const WRITE_SYSCALL: [u8; 20] = [
    0xb8, 0x01, 0x00, 0x00, 0x00, 0xbf, 0x01, 0x00, 0x00, 0x00, 0x4c, 0x89, 0xe6, 0xba, 0x01,
    0x00, 0x00, 0x00, 0x0f, 0x05,
];

const READ_SYSCALL: [u8; 20] = [
    0xb8, 0x00, 0x00, 0x00, 0x00, 0xbf, 0x00, 0x00, 0x00, 0x00, 0x4c, 0x89, 0xe6, 0xba, 0x01,
    0x00, 0x00, 0x00, 0x0f, 0x05,
];

#[test]
fn jit_test_program_hello_world() {
    let instructions = Compiler::new(HELLO_WORLD.as_bytes().to_vec()).compile().unwrap();
    assert!(check_well_formed(&instructions));
    let mut jit = JitCompiler::new(instructions);
    jit.lower(0x10000).unwrap();
    assert!(!jit.machine_code.get_buf().is_empty());
}

#[test]
fn test_emit_inc_dp_encodings() {
    let mut mc = MachineCode::default();
    assert_eq!(mc.emit_inc_dp(1), 3);
    assert_eq!(mc.get_buf().as_slice(), &[0x49, 0xff, 0xc4]);

    let mut mc = MachineCode::default();
    assert_eq!(mc.emit_inc_dp(5), 4);
    assert_eq!(mc.get_buf().as_slice(), &[0x49, 0x83, 0xc4, 0x05]);

    let mut mc = MachineCode::default();
    assert_eq!(mc.emit_inc_dp(127), 4);
    assert_eq!(mc.get_buf().as_slice(), &[0x49, 0x83, 0xc4, 0x7f]);

    let mut mc = MachineCode::default();
    assert_eq!(mc.emit_inc_dp(128), 7);
    assert_eq!(mc.get_buf().as_slice(), &[0x49, 0x81, 0xc4, 0x80, 0x00, 0x00, 0x00]);

    let mut mc = MachineCode::default();
    assert_eq!(mc.emit_inc_dp(300), 7);
    assert_eq!(mc.get_buf().as_slice(), &[0x49, 0x81, 0xc4, 0x2c, 0x01, 0x00, 0x00]);
}

#[test]
fn test_emit_dec_dp_encodings() {
    let mut mc = MachineCode::default();
    assert_eq!(mc.emit_dec_dp(1), 3);
    assert_eq!(mc.get_buf().as_slice(), &[0x49, 0xff, 0xcc]);

    let mut mc = MachineCode::default();
    assert_eq!(mc.emit_dec_dp(2), 4);
    assert_eq!(mc.get_buf().as_slice(), &[0x49, 0x83, 0xec, 0x02]);
}

#[test]
fn test_emit_cell_encodings() {
    let mut mc = MachineCode::default();
    assert_eq!(mc.emit_inc_byte_at_dp(1), 4);
    assert_eq!(mc.get_buf().as_slice(), &[0x41, 0xfe, 0x04, 0x24]);

    let mut mc = MachineCode::default();
    assert_eq!(mc.emit_inc_byte_at_dp(2), 5);
    assert_eq!(mc.get_buf().as_slice(), &[0x41, 0x80, 0x04, 0x24, 0x02]);

    // Counts act modulo 256: 256 emits nothing, 257 is a single increment.
    let mut mc = MachineCode::default();
    assert_eq!(mc.emit_inc_byte_at_dp(256), 0);
    assert!(mc.get_buf().is_empty());

    let mut mc = MachineCode::default();
    assert_eq!(mc.emit_inc_byte_at_dp(257), 4);
    assert_eq!(mc.get_buf().as_slice(), &[0x41, 0xfe, 0x04, 0x24]);

    let mut mc = MachineCode::default();
    assert_eq!(mc.emit_dec_byte_at_dp(1), 4);
    assert_eq!(mc.get_buf().as_slice(), &[0x41, 0xfe, 0x0c, 0x24]);

    let mut mc = MachineCode::default();
    assert_eq!(mc.emit_dec_byte_at_dp(6), 5);
    assert_eq!(mc.get_buf().as_slice(), &[0x41, 0x80, 0x2c, 0x24, 0x06]);
}

#[test]
fn test_emit_io_encodings() {
    let mut mc = MachineCode::default();
    assert_eq!(mc.emit_write_byte_at_dp(1), 20);
    assert_eq!(mc.get_buf().as_slice(), &WRITE_SYSCALL);

    // A folded write is unrolled, one syscall per byte.
    let mut mc = MachineCode::default();
    assert_eq!(mc.emit_write_byte_at_dp(3), 60);
    assert_eq!(mc.get_buf().len(), 60);

    let mut mc = MachineCode::default();
    assert_eq!(mc.emit_read_byte_at_dp(), 20);
    assert_eq!(mc.get_buf().as_slice(), &READ_SYSCALL);
}

#[test]
fn test_measure_mode_appends_nothing() {
    let mut mc = MachineCode::default();
    mc.emit_inc_dp(1);
    let before = mc.get_buf().len();
    // Measuring any instruction must agree with what emitting it appends,
    // and must leave the buffer untouched.
    for instr in [
        Instruction::IncDP(200),
        Instruction::DecDP(7),
        Instruction::IncByteAtDP(300),
        Instruction::DecByteAtDP(1),
        Instruction::WriteByte(2),
        Instruction::ReadByte,
        Instruction::JumpZero(9),
        Instruction::JumpNotZero(4),
    ] {
        let measured = mc.get_only_len(&instr);
        assert_eq!(mc.get_buf().len(), before);

        let mut fresh = MachineCode::default();
        match instr {
            Instruction::IncDP(n) => fresh.emit_inc_dp(n),
            Instruction::DecDP(n) => fresh.emit_dec_dp(n),
            Instruction::IncByteAtDP(n) => fresh.emit_inc_byte_at_dp(n),
            Instruction::DecByteAtDP(n) => fresh.emit_dec_byte_at_dp(n),
            Instruction::WriteByte(n) => fresh.emit_write_byte_at_dp(n),
            Instruction::ReadByte => fresh.emit_read_byte_at_dp(),
            Instruction::JumpZero(_) => fresh.emit_jump_zero(0),
            Instruction::JumpNotZero(_) => fresh.emit_jump_not_zero(0),
            _ => 0,
        };
        assert_eq!(measured, fresh.get_buf().len());
    }
}

#[test]
fn test_lower_small_loop_program() {
    // "+[-]" lowers to: prologue, inc byte, je +15 (over the 4-byte dec and
    // the 11-byte jne), dec byte, jne -15, epilogue.
    let instructions = Compiler::new(b"+[-]".to_vec()).compile().unwrap();
    assert_eq!(
        instructions,
        vec![
            Instruction::IncByteAtDP(1),
            Instruction::JumpZero(3),
            Instruction::DecByteAtDP(1),
            Instruction::JumpNotZero(1),
        ]
    );
    let mut jit = JitCompiler::new(instructions);
    jit.lower(0x1122334455667788).unwrap();

    let mut expected: Vec<u8> = Vec::new();
    // push rbp; push r12; mov r12, <tape>; mov rbp, rsp
    expected.extend_from_slice(&[0x55, 0x41, 0x54, 0x49, 0xbc]);
    expected.extend_from_slice(&[0x88, 0x77, 0x66, 0x55, 0x44, 0x33, 0x22, 0x11]);
    expected.extend_from_slice(&[0x48, 0x89, 0xe5]);
    // inc byte [r12]
    expected.extend_from_slice(&[0x41, 0xfe, 0x04, 0x24]);
    // cmp byte [r12], 0; je +15
    expected.extend_from_slice(&[0x41, 0x80, 0x3c, 0x24, 0x00, 0x0f, 0x84, 0x0f, 0x00, 0x00, 0x00]);
    // dec byte [r12]
    expected.extend_from_slice(&[0x41, 0xfe, 0x0c, 0x24]);
    // cmp byte [r12], 0; jne -15
    expected.extend_from_slice(&[0x41, 0x80, 0x3c, 0x24, 0x00, 0x0f, 0x85, 0xf1, 0xff, 0xff, 0xff]);
    // mov rsp, rbp; pop r12; pop rbp; ret
    expected.extend_from_slice(&[0x48, 0x89, 0xec, 0x41, 0x5c, 0x5d, 0xc3]);

    assert_eq!(jit.machine_code.get_buf(), &expected);
}

#[test]
fn test_get_instruction_bytes_matches_lengths() {
    let instructions = Compiler::new(b"+[-]".to_vec()).compile().unwrap();
    let mut jit = JitCompiler::new(instructions);
    assert_eq!(jit.get_instruction_bytes(&Instruction::IncByteAtDP(1)), 4);
    assert_eq!(jit.get_instruction_bytes(&Instruction::JumpZero(3)), 11);
    assert_eq!(jit.get_instruction_bytes(&Instruction::JumpNotZero(1)), 11);
    assert_eq!(jit.get_instruction_bytes(&Instruction::WriteByte(4)), 80);
    assert!(jit.machine_code.get_buf().is_empty());
}

#[test]
fn test_lower_rejects_oversized_code() {
    // A single folded write this large would need more bytes than a signed
    // 32-bit jump displacement could ever span.
    let mut jit = JitCompiler::new(vec![Instruction::WriteByte(200000000)]);
    assert_eq!(jit.lower(0x10000), Err(JitError::CodeTooLarge));
    assert!(jit.machine_code.get_buf().is_empty());
}

#[test]
fn test_lower_rejects_oversized_dp_count() {
    // A pointer move this large cannot fit the 32-bit immediate of its
    // encoding, so lowering refuses it rather than truncate.
    let mut jit = JitCompiler::new(vec![Instruction::IncDP(0x100000000)]);
    assert_eq!(jit.lower(0x10000), Err(JitError::CodeTooLarge));
    assert!(jit.machine_code.get_buf().is_empty());

    let mut jit = JitCompiler::new(vec![Instruction::DecDP(0x123456789)]);
    assert_eq!(jit.lower(0x10000), Err(JitError::CodeTooLarge));
    assert!(jit.machine_code.get_buf().is_empty());
}
