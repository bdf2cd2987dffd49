use vstd::arithmetic::div_mod::{
    lemma_add_mod_noop_right,
    lemma_mod_add_multiples_vanish,
    lemma_sub_mod_noop,
};
use vstd::prelude::*;

use crate::program::{BfError, FoldedInstruction, Instruction};

verus! {

/// The number of cells on the tape.
pub const TAPE_SIZE: usize = 30000;

/// A machine state as the semantics sees it. `consumed` counts the input bytes
/// read so far; the next byte read is `input[consumed]`.
pub struct State {
    pub ip: int,
    pub dp: int,
    pub tape: Seq<u8>,
    pub input: Seq<u8>,
    pub consumed: int,
    pub output: Seq<u8>,
}

/// The state a run starts in: both pointers at zero, a zeroed tape, no input
/// consumed, and `output` as the output so far.
pub open spec fn initial_state(input: Seq<u8>, output: Seq<u8>) -> State {
    State {
        ip: 0,
        dp: 0,
        tape: Seq::new(TAPE_SIZE as nat, |i: int| 0u8),
        input,
        consumed: 0,
        output,
    }
}

/// `cell + n` modulo 256.
pub open spec fn wrap_add(cell: u8, n: usize) -> u8 {
    ((cell as int + n as int) % 256) as u8
}

/// `cell - n` modulo 256.
pub open spec fn wrap_sub(cell: u8, n: usize) -> u8 {
    ((cell as int - n as int) % 256) as u8
}

/// The effect of executing the instruction at `s.ip`.
#[verifier::opaque]
pub open spec fn step(prog: Seq<FoldedInstruction>, s: State) -> Result<State, BfError> {
    let fi = prog[s.ip];
    let n = fi.argument;
    let cell = s.tape[s.dp];
    match fi.instruction {
        Instruction::Add => Ok(
            State { ip: s.ip + 1, tape: s.tape.update(s.dp, wrap_add(cell, n)), ..s },
        ),
        Instruction::Sub => Ok(
            State { ip: s.ip + 1, tape: s.tape.update(s.dp, wrap_sub(cell, n)), ..s },
        ),
        Instruction::MoveRight => if s.dp + n >= TAPE_SIZE {
            Err(BfError::TapeBounds)
        } else {
            Ok(State { ip: s.ip + 1, dp: s.dp + n, ..s })
        },
        Instruction::MoveLeft => if n > s.dp {
            Err(BfError::TapeBounds)
        } else {
            Ok(State { ip: s.ip + 1, dp: s.dp - n, ..s })
        },
        Instruction::Output => Ok(
            State { ip: s.ip + 1, output: s.output + Seq::new(n as nat, |i: int| cell), ..s },
        ),
        Instruction::Input => if s.consumed + n > s.input.len() {
            Err(BfError::InputExhausted)
        } else if n == 0 {
            Ok(State { ip: s.ip + 1, ..s })
        } else {
            Ok(
                State {
                    ip: s.ip + 1,
                    tape: s.tape.update(s.dp, s.input[s.consumed + n - 1]),
                    consumed: s.consumed + n,
                    ..s
                },
            )
        },
        Instruction::JumpIfZero => if cell == 0 {
            Ok(State { ip: n as int, ..s })
        } else {
            Ok(State { ip: s.ip + 1, ..s })
        },
        Instruction::JumpIfNotZero => if cell != 0 {
            Ok(State { ip: n as int, ..s })
        } else {
            Ok(State { ip: s.ip + 1, ..s })
        },
    }
}

/// Runs `prog` from `s` for at most `fuel` steps. `Some(Ok(out))` when it halts
/// by leaving the program, `Some(Err(e))` when a step fails, `None` when the
/// fuel runs out first.
pub open spec fn run(prog: Seq<FoldedInstruction>, s: State, fuel: nat) -> Option<Result<Seq<u8>, BfError>>
    decreases fuel,
{
    if s.ip >= prog.len() {
        Some(Ok(s.output))
    } else if fuel == 0 {
        None
    } else {
        match step(prog, s) {
            Err(e) => Some(Err(e)),
            Ok(t) => run(prog, t, (fuel - 1) as nat),
        }
    }
}

/// What a run with a budget of `limit` steps returns.
pub open spec fn outcome(prog: Seq<FoldedInstruction>, s: State, limit: nat) -> Result<Seq<u8>, BfError> {
    match run(prog, s, limit) {
        Some(r) => r,
        None => Err(BfError::StepLimitReached),
    }
}

/// The output of an executable run, as a sequence.
pub open spec fn output_view(r: Result<Vec<u8>, BfError>) -> Result<Seq<u8>, BfError> {
    match r {
        Ok(v) => Ok(v@),
        Err(e) => Err(e),
    }
}

/// The sum of the arguments of the instructions of `p` from index `k` on.
pub open spec fn arguments_from(p: Seq<FoldedInstruction>, k: int) -> int
    decreases p.len() - k,
{
    if 0 <= k < p.len() {
        p[k].argument + arguments_from(p, k + 1)
    } else {
        0
    }
}

/// Once a run has ended, more steps change nothing: two runs of one program
/// from one state that both end give the same result.
pub proof fn lemma_run_deterministic(prog: Seq<FoldedInstruction>, s: State, n1: nat, n2: nat)
    requires
        run(prog, s, n1) is Some,
        run(prog, s, n2) is Some,
    ensures
        run(prog, s, n1) == run(prog, s, n2),
    decreases n1,
{
    if s.ip < prog.len() && n1 > 0 && n2 > 0 {
        if let Ok(t) = step(prog, s) {
            lemma_run_deterministic(prog, t, (n1 - 1) as nat, (n2 - 1) as nat);
        }
    }
}

proof fn lemma_move_right_run(p: Seq<FoldedInstruction>, s: State, fuel: nat)
    requires
        forall|k: int| 0 <= k < p.len() ==> #[trigger] p[k].instruction == Instruction::MoveRight,
        0 <= s.ip <= p.len(),
        0 <= s.dp < TAPE_SIZE,
        s.dp + arguments_from(p, s.ip) >= TAPE_SIZE,
        fuel >= p.len() - s.ip,
    ensures
        run(p, s, fuel) == Some(Err::<Seq<u8>, BfError>(BfError::TapeBounds)),
    decreases p.len() - s.ip,
{
    reveal(step);
    if s.ip < p.len() {
        let n = p[s.ip].argument;
        if s.dp + n < TAPE_SIZE {
            let t = State { ip: s.ip + 1, dp: s.dp + n, ..s };
            assert(step(p, s) == Ok::<State, BfError>(t));
            lemma_move_right_run(p, t, (fuel - 1) as nat);
        }
    }
}

/// A program made only of `MoveRight` instructions whose arguments add up to
/// the tape size or more fails with `TapeBounds`, given a step for each
/// instruction.
pub proof fn lemma_move_right_out_of_bounds(
    p: Seq<FoldedInstruction>,
    input: Seq<u8>,
    output: Seq<u8>,
    limit: nat,
)
    requires
        forall|k: int| 0 <= k < p.len() ==> #[trigger] p[k].instruction == Instruction::MoveRight,
        arguments_from(p, 0) >= TAPE_SIZE,
        limit >= p.len(),
    ensures
        outcome(p, initial_state(input, output), limit) == Err::<Seq<u8>, BfError>(BfError::TapeBounds),
{
    lemma_move_right_run(p, initial_state(input, output), limit);
}

/// The program that reads one byte and writes it back, `k` times over.
pub open spec fn echo_program(k: nat) -> Seq<FoldedInstruction> {
    Seq::new(
        2 * k,
        |i: int|
            if i % 2 == 0 {
                FoldedInstruction { instruction: Instruction::Input, argument: 1 }
            } else {
                FoldedInstruction { instruction: Instruction::Output, argument: 1 }
            },
    )
}

proof fn lemma_echo_run(input: Seq<u8>, s: State, j: nat, fuel: nat)
    requires
        j <= input.len(),
        s.ip == 2 * j,
        s.dp == 0,
        s.tape.len() == TAPE_SIZE,
        s.input == input,
        s.consumed == j,
        s.output == input.take(j as int),
        fuel >= 2 * (input.len() - j),
    ensures
        run(echo_program(input.len()), s, fuel) == Some(Ok::<Seq<u8>, BfError>(input)),
    decreases input.len() - j,
{
    let p = echo_program(input.len());
    if j < input.len() {
        reveal(step);
        assert(p[2 * j as int] == (FoldedInstruction { instruction: Instruction::Input, argument: 1 }));
        assert(p[2 * j as int + 1] == (FoldedInstruction { instruction: Instruction::Output, argument: 1 }));
        let s1 = State { ip: s.ip + 1, tape: s.tape.update(0, input[j as int]), consumed: j as int + 1, ..s };
        assert(step(p, s) == Ok::<State, BfError>(s1));
        let s2 = State {
            ip: s.ip + 2,
            output: s.output + Seq::new(1, |i: int| input[j as int]),
            ..s1
        };
        assert(step(p, s1) == Ok::<State, BfError>(s2));
        assert(s2.output =~= input.take(j as int + 1));
        lemma_echo_run(input, s2, j + 1, (fuel - 2) as nat);
        assert(run(p, s1, (fuel - 1) as nat) == run(p, s2, (fuel - 2) as nat));
    } else {
        assert(s.output =~= input);
    }
}

/// Input is consumed from the front, in the order given: a program that reads
/// a byte and writes it back once for each input byte outputs the input
/// unchanged, given a step for each instruction.
pub proof fn lemma_echo_in_order(input: Seq<u8>, limit: nat)
    requires
        limit >= 2 * input.len(),
    ensures
        outcome(echo_program(input.len()), initial_state(input, seq![]), limit) == Ok::<Seq<u8>, BfError>(input),
{
    assert(initial_state(input, seq![]).output =~= input.take(0));
    lemma_echo_run(input, initial_state(input, seq![]), 0, limit);
}

/// A virtual machine loaded with a program and its input.
pub struct Machine {
    int_ptr: usize,
    data_ptr: usize,
    memory: Vec<u8>,
    code: Vec<FoldedInstruction>,
    input: Vec<u8>,
    input_pos: usize,
    output: Vec<u8>,
}

impl Machine {
    /// The loaded program.
    pub closed spec fn program(&self) -> Seq<FoldedInstruction> {
        self.code@
    }

    /// The machine's state.
    pub closed spec fn state(&self) -> State {
        State {
            ip: self.int_ptr as int,
            dp: self.data_ptr as int,
            tape: self.memory@,
            input: self.input@,
            consumed: self.input_pos as int,
            output: self.output@,
        }
    }

    /// The tape has its fixed size, the data pointer is on it, and no more
    /// input has been consumed than was given.
    pub closed spec fn wf(&self) -> bool {
        &&& self.memory.len() == TAPE_SIZE
        &&& self.data_ptr < TAPE_SIZE
        &&& self.input_pos <= self.input.len()
    }

    /// A machine at the start of `code`, with a zeroed tape. `input` is read
    /// from the front; the run's output is appended to `output`.
    pub fn new(code: Vec<FoldedInstruction>, input: Vec<u8>, output: Vec<u8>) -> (r: Self)
        ensures
            r.wf(),
            r.program() == code@,
            r.state() == initial_state(input@, output@),
    {
        let mut memory: Vec<u8> = Vec::new();
        while memory.len() < TAPE_SIZE
            invariant
                memory.len() <= TAPE_SIZE,
                memory@ == Seq::new(memory.len() as nat, |i: int| 0u8),
            decreases TAPE_SIZE - memory.len(),
        {
            memory.push(0);
            assert(memory@ =~= Seq::new(memory.len() as nat, |i: int| 0u8));
        }
        let r = Self { int_ptr: 0, data_ptr: 0, memory, code, input, input_pos: 0, output };
        assert(r.state().tape =~= initial_state(input@, output@).tape);
        r
    }

    /// Runs the program to completion and returns its output. A run that has
    /// not halted after `u64::MAX` steps fails with `StepLimitReached`.
    pub fn execute(self) -> (r: Result<Vec<u8>, BfError>)
        requires
            self.wf(),
        ensures
            output_view(r) == outcome(self.program(), self.state(), u64::MAX as nat),
    {
        self.execute_with_limit(u64::MAX)
    }

    /// Runs the program for at most `max_steps` instructions and returns its
    /// output; `StepLimitReached` when it has not halted by then.
    pub fn execute_with_limit(self, max_steps: u64) -> (r: Result<Vec<u8>, BfError>)
        requires
            self.wf(),
        ensures
            output_view(r) == outcome(self.program(), self.state(), max_steps as nat),
    {
        let ghost prog = self.program();
        let ghost s0 = self.state();
        let mut m = self;
        let mut steps: u64 = 0;
        while m.int_ptr < m.code.len()
            invariant
                m.wf(),
                m.code@ == prog,
                prog == self.program(),
                s0 == self.state(),
                steps <= max_steps,
                run(prog, s0, max_steps as nat) == run(prog, m.state(), (max_steps - steps) as nat),
            decreases max_steps - steps,
        {
            let ghost before = m.state();
            if steps == max_steps {
                assert(run(prog, before, 0) is None);
                return Err(BfError::StepLimitReached);
            }
            match m.step() {
                Err(e) => {
                    assert(run(prog, before, (max_steps - steps) as nat) == Some(Err::<Seq<u8>, BfError>(e)));
                    return Err(e);
                },
                Ok(()) => {},
            }
            steps = steps + 1;
        }
        Ok(m.output)
    }

    /// Executes the instruction at the instruction pointer.
    fn step(&mut self) -> (r: Result<(), BfError>)
        requires
            old(self).wf(),
            old(self).int_ptr < old(self).code.len(),
        ensures
            final(self).wf(),
            final(self).code == old(self).code,
            match step(old(self).code@, old(self).state()) {
                Ok(t) => r is Ok && final(self).state() == t,
                Err(e) => r == Err::<(), BfError>(e),
            },
    {
        reveal(step);
        let folded_inst = self.code[self.int_ptr];
        let n = folded_inst.argument;
        let ghost s = self.state();
        match folded_inst.instruction {
            Instruction::Add => {
                let cell = self.memory[self.data_ptr];
                proof {
                    lemma_add_mod_noop_right(cell as int, n as int, 256);
                }
                self.memory[self.data_ptr] = ((cell as usize + n % 256) % 256) as u8;
            },
            Instruction::Sub => {
                let cell = self.memory[self.data_ptr];
                proof {
                    lemma_mod_add_multiples_vanish(cell as int - n as int % 256, 256);
                    lemma_sub_mod_noop(cell as int, n as int, 256);
                    assert(cell as int % 256 == cell as int);
                }
                self.memory[self.data_ptr] = ((cell as usize + 256 - n % 256) % 256) as u8;
            },
            Instruction::MoveRight => {
                if n >= TAPE_SIZE - self.data_ptr {
                    return Err(BfError::TapeBounds);
                }
                self.data_ptr = self.data_ptr + n;
            },
            Instruction::MoveLeft => {
                if n > self.data_ptr {
                    return Err(BfError::TapeBounds);
                }
                self.data_ptr = self.data_ptr - n;
            },
            Instruction::Output => {
                let ghost out0 = self.output@;
                let ghost cell = self.memory@[self.data_ptr as int];
                let mut i: usize = 0;
                while i < n
                    invariant
                        self.wf(),
                        self.code == old(self).code,
                        self.int_ptr == s.ip,
                        self.data_ptr == s.dp,
                        self.memory@ == s.tape,
                        self.input@ == s.input,
                        self.input_pos == s.consumed,
                        cell == s.tape[s.dp],
                        s == old(self).state(),
                        0 <= s.ip < old(self).code@.len(),
                        n == old(self).code@[s.ip].argument,
                        old(self).code@[s.ip].instruction == Instruction::Output,
                        i <= n,
                        self.output@ == out0 + Seq::new(i as nat, |j: int| cell),
                    decreases n - i,
                {
                    self.put_char();
                    assert(self.output@ =~= out0 + Seq::new((i + 1) as nat, |j: int| cell));
                    i = i + 1;
                }
            },
            Instruction::Input => {
                let ghost pos0 = self.input_pos as int;
                let mut i: usize = 0;
                while i < n
                    invariant
                        self.wf(),
                        self.code == old(self).code,
                        self.int_ptr == s.ip,
                        self.data_ptr == s.dp,
                        self.input@ == s.input,
                        self.output@ == s.output,
                        i <= n,
                        self.input_pos == pos0 + i,
                        pos0 == s.consumed,
                        s == old(self).state(),
                        s.tape.len() == TAPE_SIZE,
                        0 <= s.dp < TAPE_SIZE,
                        0 <= s.ip < old(self).code@.len(),
                        n == old(self).code@[s.ip].argument,
                        old(self).code@[s.ip].instruction == Instruction::Input,
                        i == 0 ==> self.memory@ == s.tape,
                        pos0 + i <= s.input.len(),
                        i > 0 ==> self.memory@ == s.tape.update(s.dp, s.input[pos0 + i - 1]),
                    decreases n - i,
                {
                    let ghost mem = self.memory@;
                    let res = self.read_char();
                    if res.is_err() {
                        reveal(step);
                        return res;
                    }
                    assert(self.memory@ == mem.update(s.dp, s.input[pos0 + i]));
                    assert(self.memory@ =~= s.tape.update(s.dp, s.input[pos0 + i]));
                    i = i + 1;
                }
            },
            Instruction::JumpIfZero => {
                if self.memory[self.data_ptr] == 0 {
                    self.int_ptr = n;
                    return Ok(());
                }
            },
            Instruction::JumpIfNotZero => {
                if self.memory[self.data_ptr] != 0 {
                    self.int_ptr = n;
                    return Ok(());
                }
            },
        }
        self.int_ptr = self.int_ptr + 1;
        Ok(())
    }

    /// Reads the next input byte into the current cell, or fails with
    /// `InputExhausted` when none is left.
    fn read_char(&mut self) -> (r: Result<(), BfError>)
        requires
            old(self).wf(),
        ensures
            final(self).wf(),
            final(self).code == old(self).code,
            final(self).int_ptr == old(self).int_ptr,
            final(self).data_ptr == old(self).data_ptr,
            final(self).input == old(self).input,
            final(self).output == old(self).output,
            old(self).input_pos < old(self).input.len() ==> r is Ok
                && final(self).input_pos == old(self).input_pos + 1
                && final(self).memory@ == old(self).memory@.update(
                    old(self).data_ptr as int,
                    old(self).input@[old(self).input_pos as int],
                ),
            old(self).input_pos >= old(self).input.len() ==> r == Err::<(), BfError>(
                BfError::InputExhausted,
            ) && final(self).memory == old(self).memory && final(self).input_pos == old(self).input_pos,
    {
        if self.input_pos < self.input.len() {
            let byte = self.input[self.input_pos];
            self.memory[self.data_ptr] = byte;
            self.input_pos = self.input_pos + 1;
            Ok(())
        } else {
            Err(BfError::InputExhausted)
        }
    }

    /// Appends the current cell to the output.
    fn put_char(&mut self)
        requires
            old(self).wf(),
        ensures
            final(self).wf(),
            final(self).code == old(self).code,
            final(self).int_ptr == old(self).int_ptr,
            final(self).data_ptr == old(self).data_ptr,
            final(self).memory == old(self).memory,
            final(self).input == old(self).input,
            final(self).input_pos == old(self).input_pos,
            final(self).output@ == old(self).output@.push(old(self).memory@[old(self).data_ptr as int]),
    {
        let byte = self.memory[self.data_ptr];
        self.output.push(byte);
    }
}

} // verus!
