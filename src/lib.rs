//! A compiler from the eight-command tape language to a folded bytecode, and a
//! virtual machine that runs that bytecode on a fixed-size byte tape.
pub mod compiler;
pub mod machine;
pub mod program;

pub use compiler::Compiler;
pub use machine::{Machine, TAPE_SIZE};
pub use program::{BfError, FoldedInstruction, Instruction};

use vstd::prelude::*;

use compiler::{compiled, is_command, lemma_compile_no_commands};
use machine::{initial_state, outcome, output_view};

verus! {

/// What compiling `source` and running it on `input` gives, with an empty
/// output to start from and a budget of `u64::MAX` steps.
pub open spec fn compile_and_run_result(source: Seq<char>, input: Seq<u8>) -> Result<Seq<u8>, BfError> {
    match compiled(source) {
        Ok(p) => outcome(p, initial_state(input, seq![]), u64::MAX as nat),
        Err(e) => Err(e),
    }
}

/// Compiles `source` and runs it on `input`, returning the output bytes or the
/// first error met.
pub fn compile_and_run(source: &str, input: Vec<u8>) -> (r: Result<Vec<u8>, BfError>)
    ensures
        output_view(r) == compile_and_run_result(source@, input@),
{
    let mut compiler = Compiler::new(source);
    match compiler.compile() {
        Err(e) => Err(e),
        Ok(program) => {
            let machine = Machine::new(program, input, Vec::new());
            machine.execute()
        },
    }
}

/// Source without command characters compiles to the empty program, and
/// running that program on any input gives empty output.
pub proof fn lemma_no_commands_empty_output(s: Seq<char>, input: Seq<u8>, limit: nat)
    requires
        forall|i: int| 0 <= i < s.len() ==> !is_command(#[trigger] s[i]),
    ensures
        compiled(s) == Ok::<Seq<FoldedInstruction>, BfError>(seq![]),
        outcome(seq![], initial_state(input, seq![]), limit) == Ok::<Seq<u8>, BfError>(seq![]),
{
    lemma_compile_no_commands(s);
}

} // verus!
