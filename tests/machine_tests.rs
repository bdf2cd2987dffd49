use bf_core::{compile_and_run, BfError, Compiler, FoldedInstruction, Instruction, Machine, TAPE_SIZE};

fn fi(instruction: Instruction, argument: usize) -> FoldedInstruction {
    FoldedInstruction::new(instruction, argument)
}

fn run(program: Vec<FoldedInstruction>, input: Vec<u8>) -> Result<Vec<u8>, BfError> {
    Machine::new(program, input, Vec::new()).execute()
}

#[test]
fn empty_program_gives_empty_output() {
    assert_eq!(run(vec![], vec![1, 2, 3]), Ok(vec![]));
    assert_eq!(compile_and_run("no commands here", vec![9]), Ok(vec![]));
}

#[test]
fn input_is_read_in_order() {
    assert_eq!(compile_and_run(",.,.,.", vec![65, 66, 67]), Ok(vec![65, 66, 67]));
}

#[test]
fn folded_input_keeps_the_last_byte_read() {
    assert_eq!(compile_and_run(",,,.", vec![1, 2, 3]), Ok(vec![3]));
}

#[test]
fn input_exhaustion_is_an_error() {
    assert_eq!(compile_and_run(",", vec![]), Err(BfError::InputExhausted));
    assert_eq!(compile_and_run(",,,", vec![1, 2]), Err(BfError::InputExhausted));
}

#[test]
fn sub_from_zero_wraps_to_255() {
    assert_eq!(
        run(vec![fi(Instruction::Sub, 1), fi(Instruction::Output, 1)], vec![]),
        Ok(vec![255])
    );
}

#[test]
fn add_to_255_wraps_to_zero() {
    assert_eq!(
        run(
            vec![
                fi(Instruction::Sub, 1),
                fi(Instruction::Output, 1),
                fi(Instruction::Add, 1),
                fi(Instruction::Output, 1),
            ],
            vec![]
        ),
        Ok(vec![255, 0])
    );
}

#[test]
fn large_arguments_wrap_modulo_256() {
    assert_eq!(
        run(vec![fi(Instruction::Add, 300), fi(Instruction::Output, 1)], vec![]),
        Ok(vec![44])
    );
    assert_eq!(
        run(vec![fi(Instruction::Sub, 513), fi(Instruction::Output, 1)], vec![]),
        Ok(vec![255])
    );
}

#[test]
fn output_repeats_the_cell() {
    assert_eq!(compile_and_run("+++...", vec![]), Ok(vec![3, 3, 3]));
}

#[test]
fn moving_right_past_the_tape_is_an_error() {
    assert_eq!(
        run(vec![fi(Instruction::MoveRight, TAPE_SIZE - 1), fi(Instruction::MoveRight, 1)], vec![]),
        Err(BfError::TapeBounds)
    );
    assert_eq!(
        run(vec![fi(Instruction::MoveRight, TAPE_SIZE)], vec![]),
        Err(BfError::TapeBounds)
    );
    assert_eq!(
        run(vec![fi(Instruction::MoveRight, usize::MAX)], vec![]),
        Err(BfError::TapeBounds)
    );
}

#[test]
fn last_cell_is_usable() {
    assert_eq!(
        run(
            vec![
                fi(Instruction::MoveRight, TAPE_SIZE - 1),
                fi(Instruction::Add, 5),
                fi(Instruction::Output, 1),
            ],
            vec![]
        ),
        Ok(vec![5])
    );
}

#[test]
fn moving_left_of_the_tape_is_an_error() {
    assert_eq!(compile_and_run("<", vec![]), Err(BfError::TapeBounds));
    assert_eq!(compile_and_run(">><<<", vec![]), Err(BfError::TapeBounds));
}

#[test]
fn running_twice_gives_identical_output() {
    let mut compiler = Compiler::new(",[.-]");
    let program = compiler.compile().unwrap();
    let first = Machine::new(program.clone(), vec![5], Vec::new()).execute();
    let second = Machine::new(program, vec![5], Vec::new()).execute();
    assert_eq!(first, Ok(vec![5, 4, 3, 2, 1]));
    assert_eq!(first, second);
}

#[test]
fn multiply_loop_outputs_64() {
    assert_eq!(compile_and_run("++++++++[>++++++++<-]>.", vec![]), Ok(vec![64]));
}

#[test]
fn jump_if_zero_skips_the_loop() {
    assert_eq!(compile_and_run("[+++]+.", vec![]), Ok(vec![1]));
}

#[test]
fn endless_loop_hits_the_step_limit() {
    let mut compiler = Compiler::new("+[]");
    let program = compiler.compile().unwrap();
    let m = Machine::new(program, vec![], Vec::new());
    assert_eq!(m.execute_with_limit(1000), Err(BfError::StepLimitReached));
}

#[test]
fn step_limit_counts_instructions() {
    let program = vec![fi(Instruction::Add, 1), fi(Instruction::Output, 1)];
    let m = Machine::new(program.clone(), vec![], Vec::new());
    assert_eq!(m.execute_with_limit(1), Err(BfError::StepLimitReached));
    let m = Machine::new(program, vec![], Vec::new());
    assert_eq!(m.execute_with_limit(2), Ok(vec![1]));
}

#[test]
fn output_is_appended_to_the_given_buffer() {
    let m = Machine::new(vec![fi(Instruction::Add, 2), fi(Instruction::Output, 1)], vec![], vec![7]);
    assert_eq!(m.execute(), Ok(vec![7, 2]));
}

#[test]
fn unmatched_bracket_stops_before_running() {
    assert_eq!(compile_and_run("+.[", vec![]), Err(BfError::UnmatchedBracket));
}

#[test]
fn hello_prints_text() {
    let source = "++++++++[>++++[>++>+++>+++>+<<<<-]>+>+>->>+[<]<-]>>.>---.+++++++..+++.";
    assert_eq!(compile_and_run(source, vec![]), Ok(b"Hello".to_vec()));
}
