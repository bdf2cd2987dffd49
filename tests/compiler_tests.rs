use bf_core::{BfError, Compiler, FoldedInstruction, Instruction};

fn fi(instruction: Instruction, argument: usize) -> FoldedInstruction {
    FoldedInstruction::new(instruction, argument)
}

fn compile(source: &str) -> Result<Vec<FoldedInstruction>, BfError> {
    let mut compiler = Compiler::new(source);
    compiler.compile()
}

#[test]
fn folded_instruction_new_keeps_fields() {
    let f = FoldedInstruction::new(Instruction::MoveLeft, 7);
    assert_eq!(f.instruction, Instruction::MoveLeft);
    assert_eq!(f.argument, 7);
}

#[test]
fn source_without_commands_compiles_to_empty_program() {
    assert_eq!(compile("hello world 123"), Ok(vec![]));
    assert_eq!(compile(""), Ok(vec![]));
}

#[test]
fn run_of_plus_folds_into_one_instruction() {
    assert_eq!(compile("+++"), Ok(vec![fi(Instruction::Add, 3)]));
}

#[test]
fn folding_never_crosses_distinct_commands() {
    assert_eq!(
        compile("+-+-"),
        Ok(vec![
            fi(Instruction::Add, 1),
            fi(Instruction::Sub, 1),
            fi(Instruction::Add, 1),
            fi(Instruction::Sub, 1),
        ])
    );
}

#[test]
fn folding_stops_at_commentary() {
    assert_eq!(
        compile("+a+"),
        Ok(vec![fi(Instruction::Add, 1), fi(Instruction::Add, 1)])
    );
}

#[test]
fn every_command_kind_folds() {
    assert_eq!(
        compile(">>>><<..,,,--"),
        Ok(vec![
            fi(Instruction::MoveRight, 4),
            fi(Instruction::MoveLeft, 2),
            fi(Instruction::Output, 2),
            fi(Instruction::Input, 3),
            fi(Instruction::Sub, 2),
        ])
    );
}

#[test]
fn brackets_point_at_each_other() {
    assert_eq!(
        compile("[-]"),
        Ok(vec![
            fi(Instruction::JumpIfZero, 2),
            fi(Instruction::Sub, 1),
            fi(Instruction::JumpIfNotZero, 0),
        ])
    );
}

#[test]
fn nested_brackets_resolve() {
    assert_eq!(
        compile("+[>[+]<]"),
        Ok(vec![
            fi(Instruction::Add, 1),
            fi(Instruction::JumpIfZero, 7),
            fi(Instruction::MoveRight, 1),
            fi(Instruction::JumpIfZero, 5),
            fi(Instruction::Add, 1),
            fi(Instruction::JumpIfNotZero, 3),
            fi(Instruction::MoveLeft, 1),
            fi(Instruction::JumpIfNotZero, 1),
        ])
    );
}

#[test]
fn adjacent_brackets_do_not_fold() {
    assert_eq!(
        compile("[[]]"),
        Ok(vec![
            fi(Instruction::JumpIfZero, 3),
            fi(Instruction::JumpIfZero, 2),
            fi(Instruction::JumpIfNotZero, 1),
            fi(Instruction::JumpIfNotZero, 0),
        ])
    );
}

#[test]
fn unmatched_open_bracket_is_an_error() {
    assert_eq!(compile("[+"), Err(BfError::UnmatchedBracket));
    assert_eq!(compile("[[]"), Err(BfError::UnmatchedBracket));
}

#[test]
fn stray_close_bracket_is_ignored() {
    assert_eq!(
        compile("+]+"),
        Ok(vec![fi(Instruction::Add, 1), fi(Instruction::Add, 1)])
    );
    assert_eq!(compile("]"), Ok(vec![]));
}

#[test]
fn non_ascii_commentary_is_skipped() {
    assert_eq!(
        compile("é+ü+"),
        Ok(vec![fi(Instruction::Add, 1), fi(Instruction::Add, 1)])
    );
}

#[test]
fn compiling_twice_gives_the_same_program() {
    let mut compiler = Compiler::new("++[->+<]");
    let first = compiler.compile();
    let second = compiler.compile();
    assert!(first.is_ok());
    assert_eq!(first, second);
}

#[test]
fn enclosing_brackets_pair_first_and_last() {
    let program = compile("[+[-]>>,]").unwrap();
    let n = program.len();
    assert_eq!(n, 8);
    assert_eq!(program[0], fi(Instruction::JumpIfZero, n - 1));
    assert_eq!(program[n - 1], fi(Instruction::JumpIfNotZero, 0));
}

#[test]
fn programs_of_concatenated_runs_concatenate() {
    let left = compile("++>>").unwrap();
    let right = compile("<...").unwrap();
    let mut joined = left.clone();
    joined.extend(right);
    assert_eq!(compile("++>><..."), Ok(joined));
}
