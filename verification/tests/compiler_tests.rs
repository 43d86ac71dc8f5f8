use brainfuck::compiler::check_well_formed;
use brainfuck::compiler::CompileError;
use brainfuck::compiler::Compiler;
use brainfuck::compiler::Instruction;
use brainfuck::remove_non_idents;

const HELLO_WORLD: &str = "+[>[<-[]>+[>+++>[+++++++++++>][>]-[<]>-]]++++++++++<]>>>>>>----.<<+++.<-..+++.<-.>>>.<<.+++.------.>-.<<+.<.";

#[test]
fn test_remove_repeating_reads() {
    // Reads never fold: a run of reads emits one instruction per read, so
    // the compiled program consumes exactly as many input bytes as the
    // source does.
    let instructions = Compiler::new(b",,,,,.,,,.,".to_vec()).compile().unwrap();

    assert_eq!(
        instructions,
        vec![
            Instruction::ReadByte,
            Instruction::ReadByte,
            Instruction::ReadByte,
            Instruction::ReadByte,
            Instruction::ReadByte,
            Instruction::WriteByte(1),
            Instruction::ReadByte,
            Instruction::ReadByte,
            Instruction::ReadByte,
            Instruction::WriteByte(1),
            Instruction::ReadByte
        ]
    );
}

#[test]
fn compiler_test_program_hello_world() {
    let instructions = Compiler::new(HELLO_WORLD.as_bytes().to_vec()).compile().unwrap();

    assert_eq!(
        instructions,
        vec![
            Instruction::IncByteAtDP(1),
            Instruction::JumpZero(31),
            Instruction::IncDP(1),
            Instruction::JumpZero(26),
            Instruction::DecDP(1),
            Instruction::DecByteAtDP(1),
            Instruction::JumpZero(2),
            Instruction::JumpNotZero(0),
            Instruction::IncDP(1),
            Instruction::IncByteAtDP(1),
            Instruction::JumpZero(18),
            Instruction::IncDP(1),
            Instruction::IncByteAtDP(3),
            Instruction::IncDP(1),
            Instruction::JumpZero(4),
            Instruction::IncByteAtDP(11),
            Instruction::IncDP(1),
            Instruction::JumpNotZero(2),
            Instruction::JumpZero(3),
            Instruction::IncDP(1),
            Instruction::JumpNotZero(1),
            Instruction::DecByteAtDP(1),
            Instruction::JumpZero(3),
            Instruction::DecDP(1),
            Instruction::JumpNotZero(1),
            Instruction::IncDP(1),
            Instruction::DecByteAtDP(1),
            Instruction::JumpNotZero(16),
            Instruction::JumpNotZero(24),
            Instruction::IncByteAtDP(10),
            Instruction::DecDP(1),
            Instruction::JumpNotZero(29),
            Instruction::IncDP(6),
            Instruction::DecByteAtDP(4),
            Instruction::WriteByte(1),
            Instruction::DecDP(2),
            Instruction::IncByteAtDP(3),
            Instruction::WriteByte(1),
            Instruction::DecDP(1),
            Instruction::DecByteAtDP(1),
            Instruction::WriteByte(2),
            Instruction::IncByteAtDP(3),
            Instruction::WriteByte(1),
            Instruction::DecDP(1),
            Instruction::DecByteAtDP(1),
            Instruction::WriteByte(1),
            Instruction::IncDP(3),
            Instruction::WriteByte(1),
            Instruction::DecDP(2),
            Instruction::WriteByte(1),
            Instruction::IncByteAtDP(3),
            Instruction::WriteByte(1),
            Instruction::DecByteAtDP(6),
            Instruction::WriteByte(1),
            Instruction::IncDP(1),
            Instruction::DecByteAtDP(1),
            Instruction::WriteByte(1),
            Instruction::DecDP(2),
            Instruction::IncByteAtDP(1),
            Instruction::WriteByte(1),
            Instruction::DecDP(1),
            Instruction::WriteByte(1)
        ]
    );
}

#[test]
fn test_unmatched_loop_end() {
    let r = Compiler::new(b"]".to_vec()).compile();
    assert_eq!(r, Err(CompileError::UnmatchedLoopEnd));
}

#[test]
fn test_unmatched_loop_begin() {
    let r = Compiler::new(b"[".to_vec()).compile();
    assert_eq!(r, Err(CompileError::UnmatchedLoopBegin));
}

#[test]
fn test_unmatched_loop_begin_wins() {
    // A surplus closer is reported only when every opener is matched.
    let r = Compiler::new(b"][".to_vec()).compile();
    assert_eq!(r, Err(CompileError::UnmatchedLoopBegin));
}

#[test]
fn test_compile_idempotent_in_filter() {
    let src = b"a+b[ comment ]>>c<.,x-".to_vec();
    let once = remove_non_idents(&src);
    let twice = remove_non_idents(&remove_non_idents(&src));
    assert_eq!(once, twice);
    let direct = Compiler::new(src).compile();
    let filtered = Compiler::new(once).compile();
    let refiltered = Compiler::new(twice).compile();
    assert_eq!(direct, filtered);
    assert_eq!(filtered, refiltered);
}

#[test]
fn test_folding_single_runs() {
    assert_eq!(
        Compiler::new(b"+++++".to_vec()).compile().unwrap(),
        vec![Instruction::IncByteAtDP(5)]
    );
    assert_eq!(Compiler::new(b">>>".to_vec()).compile().unwrap(), vec![Instruction::IncDP(3)]);
    assert_eq!(Compiler::new(b"<".to_vec()).compile().unwrap(), vec![Instruction::DecDP(1)]);
    assert_eq!(
        Compiler::new(b"--".to_vec()).compile().unwrap(),
        vec![Instruction::DecByteAtDP(2)]
    );
    // Runs interrupted only by comment bytes still fold.
    assert_eq!(
        Compiler::new(b"+ am I a comment? +".to_vec()).compile().unwrap(),
        vec![Instruction::IncByteAtDP(2)]
    );
    // Writes fold with their count; the virtual machine replays them.
    assert_eq!(
        Compiler::new(b"...".to_vec()).compile().unwrap(),
        vec![Instruction::WriteByte(3)]
    );
    // Reads never fold.
    assert_eq!(
        Compiler::new(b",,,".to_vec()).compile().unwrap(),
        vec![Instruction::ReadByte, Instruction::ReadByte, Instruction::ReadByte]
    );
}

#[test]
fn test_bracket_pairing_invariant() {
    let instructions = Compiler::new(HELLO_WORLD.as_bytes().to_vec()).compile().unwrap();
    assert!(check_well_formed(&instructions));
    for (i, instr) in instructions.iter().enumerate() {
        if let Instruction::JumpZero(f) = instr {
            assert_eq!(instructions[i + f - 1], Instruction::JumpNotZero(f - 2));
        }
        if let Instruction::JumpNotZero(b) = instr {
            assert_eq!(instructions[i - b - 1], Instruction::JumpZero(b + 2));
        }
    }
}

#[test]
fn test_empty_loop_offsets() {
    let instructions = Compiler::new(b"[]".to_vec()).compile().unwrap();
    assert_eq!(instructions, vec![Instruction::JumpZero(2), Instruction::JumpNotZero(0)]);
}
