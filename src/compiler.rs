use vstd::prelude::*;
use vstd::string::StrSliceExecFns;

use crate::program::{BfError, FoldedInstruction, Instruction};

verus! {

/// The instruction kind of a foldable command character, if it is one.
pub open spec fn fold_kind(c: char) -> Option<Instruction> {
    if c == '+' {
        Some(Instruction::Add)
    } else if c == '-' {
        Some(Instruction::Sub)
    } else if c == '>' {
        Some(Instruction::MoveRight)
    } else if c == '<' {
        Some(Instruction::MoveLeft)
    } else if c == '.' {
        Some(Instruction::Output)
    } else if c == ',' {
        Some(Instruction::Input)
    } else {
        None
    }
}

/// What a scan of a prefix of the source has produced: the program so far and
/// the indices of the `JumpIfZero` instructions still waiting for their `]`.
pub struct ScanState {
    pub program: Seq<FoldedInstruction>,
    pub open: Seq<usize>,
}

/// Adds one to the count of the last instruction, which has kind `k`.
pub open spec fn extend_last(st: ScanState, k: Instruction) -> ScanState {
    let last = st.program.last();
    ScanState {
        program: st.program.update(
            st.program.len() - 1,
            FoldedInstruction { instruction: k, argument: (last.argument + 1) as usize },
        ),
        open: st.open,
    }
}

/// Starts a new instruction of kind `k` with count one.
pub open spec fn push_fold(st: ScanState, k: Instruction) -> ScanState {
    ScanState {
        program: st.program.push(FoldedInstruction { instruction: k, argument: 1 }),
        open: st.open,
    }
}

/// Emits a placeholder `JumpIfZero` and remembers its index.
pub open spec fn open_jump(st: ScanState) -> ScanState {
    ScanState {
        program: st.program.push(
            FoldedInstruction { instruction: Instruction::JumpIfZero, argument: 0 },
        ),
        open: st.open.push(st.program.len() as usize),
    }
}

/// Emits a `JumpIfNotZero` back to the most recent open jump, and backpatches
/// that jump to point at it.
pub open spec fn close_jump(st: ScanState) -> ScanState {
    let o = st.open.last();
    let j = st.program.len() as usize;
    ScanState {
        program: st.program.push(
            FoldedInstruction { instruction: Instruction::JumpIfNotZero, argument: o },
        ).update(o as int, FoldedInstruction { instruction: Instruction::JumpIfZero, argument: j }),
        open: st.open.drop_last(),
    }
}

/// The scan of the first `n` characters of `s`, one character at a time.
/// A foldable character that repeats the character just before it adds one to
/// the count of the last instruction; any other foldable character starts a new
/// instruction with count one. `[` emits a placeholder jump and remembers it;
/// `]` closes the most recent open jump and backpatches it, or is ignored when
/// nothing is open. Every other character is commentary.
pub open spec fn scan(s: Seq<char>, n: int) -> ScanState
    recommends
        0 <= n <= s.len(),
    decreases n,
{
    if n <= 0 {
        ScanState { program: seq![], open: seq![] }
    } else {
        let prev = scan(s, n - 1);
        let c = s[n - 1];
        match fold_kind(c) {
            Some(k) => if n >= 2 && s[n - 2] == c {
                extend_last(prev, k)
            } else {
                push_fold(prev, k)
            },
            None => if c == '[' {
                open_jump(prev)
            } else if c == ']' && prev.open.len() > 0 {
                close_jump(prev)
            } else {
                prev
            },
        }
    }
}

/// The result of compiling the whole of `s`: the scanned program, or an error
/// when some `[` was never closed.
pub open spec fn compiled(s: Seq<char>) -> Result<Seq<FoldedInstruction>, BfError> {
    let st = scan(s, s.len() as int);
    if st.open.len() == 0 {
        Ok(st.program)
    } else {
        Err(BfError::UnmatchedBracket)
    }
}

/// The scan state stays within bounds: the program is no longer than the
/// characters scanned, and every open index names an instruction of it.
pub proof fn lemma_scan_bounds(s: Seq<char>, n: int)
    requires
        0 <= n <= s.len(),
    ensures
        scan(s, n).program.len() <= n,
        forall|i: int|
            0 <= i < scan(s, n).open.len() ==> #[trigger] scan(s, n).open[i] < scan(s, n).program.len(),
        n > 0 && fold_kind(s[n - 1]) is Some ==> scan(s, n).program.len() > 0,
    decreases n,
{
    if n > 0 {
        lemma_scan_bounds(s, n - 1);
    }
}

/// Whether an instruction kind is one of the six that carry a repeat count.
pub open spec fn fold_kind_of(i: Instruction) -> bool {
    i != Instruction::JumpIfZero && i != Instruction::JumpIfNotZero
}

/// The instruction at `k` is a well-formed part of `p`.
pub open spec fn well_formed_at(p: Seq<FoldedInstruction>, k: int) -> bool {
    let fi = p[k];
    &&& fi.instruction == Instruction::JumpIfZero ==> fi.argument < p.len() && p[fi.argument as int]
        == (FoldedInstruction { instruction: Instruction::JumpIfNotZero, argument: k as usize })
    &&& fi.instruction == Instruction::JumpIfNotZero ==> fi.argument < p.len() && p[fi.argument as int]
        == (FoldedInstruction { instruction: Instruction::JumpIfZero, argument: k as usize })
    &&& fold_kind_of(fi.instruction) ==> fi.argument >= 1
}

/// Whether `p` is a well-formed program: every jump names the index of its
/// partner, a jump of the other kind that names it back, and every other
/// instruction has a repeat count of at least one.
pub open spec fn well_formed_program(p: Seq<FoldedInstruction>) -> bool {
    forall|k: int| 0 <= k < p.len() ==> #[trigger] well_formed_at(p, k)
}

spec fn is_open(st: ScanState, k: int) -> bool {
    exists|i: int| 0 <= i < st.open.len() && st.open[i] == k
}

/// What holds of the instruction at `k` during a scan: an open jump is a
/// placeholder, a closed jump is paired with a later partner, and a count is
/// positive.
spec fn scan_inv_at(st: ScanState, k: int) -> bool {
    let p = st.program;
    let fi = p[k];
    &&& fi.instruction == Instruction::JumpIfZero ==> is_open(st, k) || (k < fi.argument < p.len()
        && p[fi.argument as int] == (FoldedInstruction {
        instruction: Instruction::JumpIfNotZero,
        argument: k as usize,
    }))
    &&& fi.instruction == Instruction::JumpIfNotZero ==> fi.argument < k && p[fi.argument as int]
        == (FoldedInstruction { instruction: Instruction::JumpIfZero, argument: k as usize })
    &&& fold_kind_of(fi.instruction) ==> fi.argument >= 1
}

spec fn scan_inv(st: ScanState) -> bool {
    &&& forall|i: int|
        0 <= i < st.open.len() ==> #[trigger] st.open[i] < st.program.len()
            && st.program[st.open[i] as int] == (FoldedInstruction {
            instruction: Instruction::JumpIfZero,
            argument: 0,
        })
    &&& forall|i: int, j: int| 0 <= i < j < st.open.len() ==> st.open[i] < st.open[j]
    &&& forall|k: int| 0 <= k < st.program.len() ==> #[trigger] scan_inv_at(st, k)
}

proof fn lemma_inv_extend(st: ScanState, k: Instruction)
    requires
        scan_inv(st),
        st.program.len() > 0,
        st.program.last().instruction == k,
        fold_kind_of(k),
        st.program.last().argument < usize::MAX,
    ensures
        scan_inv(extend_last(st, k)),
{
    let cur = extend_last(st, k);
    let last = st.program.len() - 1;
    assert(scan_inv_at(st, last));
    assert forall|i: int| 0 <= i < cur.program.len() implies #[trigger] scan_inv_at(cur, i) by {
        assert(scan_inv_at(st, i));
        if i != last {
            let fi = st.program[i];
            if fi.instruction == Instruction::JumpIfZero && !is_open(st, i) {
                assert(fi.argument != last);
            }
            if fi.instruction == Instruction::JumpIfNotZero {
                assert(fi.argument != last);
            }
            if is_open(st, i) {
                let w = choose|w: int| 0 <= w < st.open.len() && st.open[w] == i;
                assert(cur.open[w] == i);
            }
        }
    }
}

proof fn lemma_inv_push_fold(st: ScanState, k: Instruction)
    requires
        scan_inv(st),
        fold_kind_of(k),
    ensures
        scan_inv(push_fold(st, k)),
{
    let cur = push_fold(st, k);
    assert forall|i: int| 0 <= i < cur.program.len() implies #[trigger] scan_inv_at(cur, i) by {
        if i < st.program.len() {
            assert(scan_inv_at(st, i));
            if is_open(st, i) {
                let w = choose|w: int| 0 <= w < st.open.len() && st.open[w] == i;
                assert(cur.open[w] == i);
            }
        }
    }
}

proof fn lemma_inv_open(st: ScanState)
    requires
        scan_inv(st),
        st.program.len() < usize::MAX,
    ensures
        scan_inv(open_jump(st)),
{
    let cur = open_jump(st);
    let j = st.program.len() as int;
    assert(cur.open[cur.open.len() - 1] == j);
    assert forall|i: int| 0 <= i < cur.program.len() implies #[trigger] scan_inv_at(cur, i) by {
        if i < j {
            assert(scan_inv_at(st, i));
            if is_open(st, i) {
                let w = choose|w: int| 0 <= w < st.open.len() && st.open[w] == i;
                assert(cur.open[w] == i);
            }
        } else {
            assert(is_open(cur, i));
        }
    }
    assert forall|i: int| 0 <= i < cur.open.len() implies #[trigger] cur.open[i] < cur.program.len()
        && cur.program[cur.open[i] as int] == (FoldedInstruction {
        instruction: Instruction::JumpIfZero,
        argument: 0,
    }) by {
        if i < st.open.len() {
            assert(cur.open[i] == st.open[i]);
        }
    }
}

proof fn lemma_inv_close(st: ScanState)
    requires
        scan_inv(st),
        st.open.len() > 0,
        st.program.len() < usize::MAX,
    ensures
        scan_inv(close_jump(st)),
{
    let cur = close_jump(st);
    let o = st.open.last() as int;
    let j = st.program.len() as int;
    assert(st.program[o].argument == 0);
    assert forall|i: int| 0 <= i < cur.program.len() implies #[trigger] scan_inv_at(cur, i) by {
        if i == o {
            assert(cur.program[j] == (FoldedInstruction {
                instruction: Instruction::JumpIfNotZero,
                argument: o as usize,
            }));
        } else if i < j {
            assert(scan_inv_at(st, i));
            assert(cur.program[i] == st.program[i]);
            let fi = st.program[i];
            if fi.instruction == Instruction::JumpIfZero {
                if is_open(st, i) {
                    let w = choose|w: int| 0 <= w < st.open.len() && st.open[w] == i;
                    assert(w != st.open.len() - 1);
                    assert(cur.open[w] == i);
                } else {
                    assert(fi.argument != o);
                }
            } else if fi.instruction == Instruction::JumpIfNotZero {
                assert(fi.argument != o);
            }
        }
    }
    assert forall|i: int| 0 <= i < cur.open.len() implies #[trigger] cur.open[i] < cur.program.len()
        && cur.program[cur.open[i] as int] == (FoldedInstruction {
        instruction: Instruction::JumpIfZero,
        argument: 0,
    }) by {
        assert(cur.open[i] == st.open[i]);
        assert(st.open[i] < st.program.len());
        assert(st.open[i] < st.open[st.open.len() - 1]);
    }
}

proof fn lemma_scan_last(s: Seq<char>, n: int)
    requires
        1 <= n <= s.len(),
        fold_kind(s[n - 1]) is Some,
    ensures
        scan(s, n).program.len() > 0,
        scan(s, n).program.last().instruction == fold_kind(s[n - 1])->Some_0,
        scan(s, n).program.last().argument <= n,
    decreases n,
{
    lemma_scan_bounds(s, n);
    lemma_scan_bounds(s, n - 1);
    if n >= 2 && s[n - 2] == s[n - 1] {
        lemma_scan_last(s, n - 1);
    }
}

proof fn lemma_scan_inv(s: Seq<char>, n: int)
    requires
        0 <= n <= s.len(),
        s.len() <= usize::MAX,
    ensures
        scan_inv(scan(s, n)),
    decreases n,
{
    if n > 0 {
        lemma_scan_inv(s, n - 1);
        lemma_scan_bounds(s, n - 1);
        let prev = scan(s, n - 1);
        let c = s[n - 1];
        match fold_kind(c) {
            Some(k) => {
                if n >= 2 && s[n - 2] == c {
                    lemma_scan_last(s, n - 1);
                    lemma_inv_extend(prev, k);
                } else {
                    lemma_inv_push_fold(prev, k);
                }
            },
            None => {
                if c == '[' {
                    lemma_inv_open(prev);
                } else if c == ']' && prev.open.len() > 0 {
                    lemma_inv_close(prev);
                }
            },
        }
    }
}

/// A successful compilation yields a well-formed program: each `[` and its
/// matching `]` name each other's index.
pub proof fn lemma_compiled_well_formed(s: Seq<char>)
    requires
        s.len() <= usize::MAX,
        compiled(s) is Ok,
    ensures
        well_formed_program(compiled(s)->Ok_0),
{
    let st = scan(s, s.len() as int);
    lemma_scan_inv(s, s.len() as int);
    assert forall|k: int| 0 <= k < st.program.len() implies #[trigger] well_formed_at(st.program, k) by {
        assert(scan_inv_at(st, k));
    }
}

/// Whether `c` is one of the eight command characters.
pub open spec fn is_command(c: char) -> bool {
    fold_kind(c) is Some || c == '[' || c == ']'
}

proof fn lemma_scan_no_commands(s: Seq<char>, n: int)
    requires
        0 <= n <= s.len(),
        forall|i: int| 0 <= i < s.len() ==> !is_command(#[trigger] s[i]),
    ensures
        scan(s, n) == (ScanState { program: seq![], open: seq![] }),
    decreases n,
{
    if n > 0 {
        lemma_scan_no_commands(s, n - 1);
        assert(!is_command(s[n - 1]));
    }
}

/// Source without command characters compiles to the empty program.
pub proof fn lemma_compile_no_commands(s: Seq<char>)
    requires
        forall|i: int| 0 <= i < s.len() ==> !is_command(#[trigger] s[i]),
    ensures
        compiled(s) == Ok::<Seq<FoldedInstruction>, BfError>(seq![]),
{
    lemma_scan_no_commands(s, s.len() as int);
}

proof fn lemma_scan_prefix(a: Seq<char>, b: Seq<char>, n: int)
    requires
        0 <= n <= a.len(),
        n <= b.len(),
        forall|i: int| 0 <= i < n ==> a[i] == b[i],
    ensures
        scan(a, n) == scan(b, n),
    decreases n,
{
    if n > 0 {
        lemma_scan_prefix(a, b, n - 1);
        if n >= 2 {
            assert(a[n - 2] == b[n - 2]);
        }
        assert(a[n - 1] == b[n - 1]);
    }
}

/// Whether `s` holds neither `[` nor `]`.
pub open spec fn bracket_free(s: Seq<char>) -> bool {
    forall|i: int| 0 <= i < s.len() ==> #[trigger] s[i] != '[' && s[i] != ']'
}

proof fn lemma_scan_bracket_free(s: Seq<char>, n: int)
    requires
        0 <= n <= s.len(),
        bracket_free(s),
    ensures
        scan(s, n).open == Seq::<usize>::empty(),
    decreases n,
{
    if n > 0 {
        lemma_scan_bracket_free(s, n - 1);
        assert(s[n - 1] != '[' && s[n - 1] != ']');
    }
}

proof fn lemma_scan_run(s: Seq<char>, c: char, n: int)
    requires
        1 <= n <= s.len(),
        s.len() <= usize::MAX,
        fold_kind(c) is Some,
        forall|i: int| 0 <= i < s.len() ==> #[trigger] s[i] == c,
    ensures
        scan(s, n) == (ScanState {
            program: seq![FoldedInstruction { instruction: fold_kind(c)->Some_0, argument: n as usize }],
            open: Seq::<usize>::empty(),
        }),
    decreases n,
{
    let k = fold_kind(c)->Some_0;
    assert(s[n - 1] == c);
    if n == 1 {
        assert(scan(s, 0).program.push(FoldedInstruction { instruction: k, argument: 1 }) =~= seq![
            FoldedInstruction { instruction: k, argument: 1 },
        ]);
    } else {
        lemma_scan_run(s, c, n - 1);
        assert(s[n - 2] == c);
        assert(scan(s, n).program =~= seq![FoldedInstruction { instruction: k, argument: n as usize }]);
    }
}

/// A run of one repeated foldable command compiles to a single instruction of
/// that command's kind whose argument is the run's length.
pub proof fn lemma_compile_run(s: Seq<char>, c: char)
    requires
        1 <= s.len() <= usize::MAX,
        fold_kind(c) is Some,
        forall|i: int| 0 <= i < s.len() ==> #[trigger] s[i] == c,
    ensures
        compiled(s) == Ok::<Seq<FoldedInstruction>, BfError>(
            seq![FoldedInstruction { instruction: fold_kind(c)->Some_0, argument: s.len() as usize }],
        ),
{
    lemma_scan_run(s, c, s.len() as int);
}

proof fn lemma_scan_concat(a: Seq<char>, b: Seq<char>, m: int)
    requires
        0 <= m <= b.len(),
        bracket_free(a),
        bracket_free(b),
        a.len() == 0 || b.len() == 0 || a.last() != b[0],
    ensures
        scan(a + b, a.len() + m) == (ScanState {
            program: scan(a, a.len() as int).program + scan(b, m).program,
            open: Seq::<usize>::empty(),
        }),
    decreases m,
{
    let ab = a + b;
    let n = a.len() + m;
    if m == 0 {
        lemma_scan_prefix(ab, a, a.len() as int);
        lemma_scan_bracket_free(a, a.len() as int);
        assert(scan(a, a.len() as int).program + scan(b, 0).program =~= scan(a, a.len() as int).program);
    } else {
        lemma_scan_concat(a, b, m - 1);
        lemma_scan_bracket_free(b, m - 1);
        lemma_scan_bounds(b, m - 1);
        let pa = scan(a, a.len() as int).program;
        let q = scan(b, m - 1).program;
        let c = b[m - 1];
        assert(ab[n - 1] == c);
        assert(c != '[' && c != ']');
        if m >= 2 {
            assert(ab[n - 2] == b[m - 2]);
        } else if a.len() >= 1 {
            assert(ab[n - 2] == a.last());
        }
        if let Some(k) = fold_kind(c) {
            if m >= 2 && b[m - 2] == c {
                let x = FoldedInstruction { instruction: k, argument: (q.last().argument + 1) as usize };
                assert((pa + q).last() == q.last());
                assert((pa + q).update((pa + q).len() - 1, x) =~= pa + q.update(q.len() - 1, x));
            } else {
                let x = FoldedInstruction { instruction: k, argument: 1 };
                assert((pa + q).push(x) =~= pa + q.push(x));
            }
        }
    }
}

/// Folding never crosses distinct commands: where neither `a` nor `b` holds a
/// bracket and the last character of `a` differs from the first of `b`, the
/// program of `a + b` is the program of `a` followed by the program of `b`.
pub proof fn lemma_compile_concat(a: Seq<char>, b: Seq<char>)
    requires
        bracket_free(a),
        bracket_free(b),
        a.len() == 0 || b.len() == 0 || a.last() != b[0],
    ensures
        compiled(a) is Ok,
        compiled(b) is Ok,
        compiled(a + b) == Ok::<Seq<FoldedInstruction>, BfError>(compiled(a)->Ok_0 + compiled(b)->Ok_0),
{
    lemma_scan_bracket_free(a, a.len() as int);
    lemma_scan_bracket_free(b, b.len() as int);
    lemma_scan_concat(a, b, b.len() as int);
    assert(a + b == a + b);
    assert((a + b).len() == a.len() + b.len());
}

/// How many `[` exceed `]` among the first `i` characters of `x`.
pub open spec fn bracket_depth(x: Seq<char>, i: int) -> int
    decreases i,
{
    if i <= 0 {
        0
    } else {
        bracket_depth(x, i - 1) + if x[i - 1] == '[' {
            1int
        } else if x[i - 1] == ']' {
            -1int
        } else {
            0int
        }
    }
}

/// Whether every `]` of `x` closes an earlier `[` of `x`, and every `[` is
/// closed.
pub open spec fn balanced(x: Seq<char>) -> bool {
    &&& bracket_depth(x, x.len() as int) == 0
    &&& forall|i: int| 0 <= i <= x.len() ==> #[trigger] bracket_depth(x, i) >= 0
}

proof fn lemma_scan_enclosed(x: Seq<char>, i: int)
    requires
        0 <= i <= x.len(),
        x.len() + 2 <= usize::MAX,
        forall|j: int| 0 <= j <= x.len() ==> #[trigger] bracket_depth(x, j) >= 0,
    ensures
        ({
            let st = scan(seq!['['] + x + seq![']'], 1 + i);
            &&& st.open.len() == 1 + bracket_depth(x, i)
            &&& st.open[0] == 0
            &&& st.program.len() >= 1
            &&& st.program[0] == (FoldedInstruction { instruction: Instruction::JumpIfZero, argument: 0 })
        }),
    decreases i,
{
    let s = seq!['['] + x + seq![']'];
    assert(s.len() == x.len() + 2);
    assert(s[0] == '[');
    if i == 0 {
        assert(scan(s, 1) == open_jump(scan(s, 0)));
    } else {
        lemma_scan_enclosed(x, i - 1);
        lemma_scan_inv(s, i);
        lemma_scan_bounds(s, i);
        let prev = scan(s, i);
        let c = x[i - 1];
        assert(s[i] == c);
        assert(bracket_depth(x, i) >= 0);
        if let Some(k) = fold_kind(c) {
            if s[i - 1] == c {
                lemma_scan_last(s, i);
                assert(prev.program.len() - 1 != 0);
            }
        } else if c == ']' {
            assert(prev.open.len() >= 2);
            assert(prev.open[0] < prev.open[prev.open.len() - 1]);
        }
    }
}

/// A source `[x]` whose inner text `x` is balanced compiles to a program whose
/// first instruction jumps to the last and whose last jumps back to the first.
pub proof fn lemma_compile_enclosed(x: Seq<char>)
    requires
        balanced(x),
        x.len() + 2 <= usize::MAX,
    ensures
        ({
            let r = compiled(seq!['['] + x + seq![']']);
            &&& r is Ok
            &&& r->Ok_0.len() >= 2
            &&& r->Ok_0[0] == (FoldedInstruction {
                instruction: Instruction::JumpIfZero,
                argument: (r->Ok_0.len() - 1) as usize,
            })
            &&& r->Ok_0[r->Ok_0.len() - 1] == (FoldedInstruction {
                instruction: Instruction::JumpIfNotZero,
                argument: 0,
            })
        }),
{
    let s = seq!['['] + x + seq![']'];
    assert(s.len() == x.len() + 2);
    lemma_scan_enclosed(x, x.len() as int);
    lemma_scan_bounds(s, x.len() as int + 1);
    let prev = scan(s, x.len() as int + 1);
    assert(s[x.len() as int + 1] == ']');
    assert(prev.open.len() == 1);
    assert(scan(s, s.len() as int) == close_jump(prev));
}

/// A single-pass compiler over one source text.
pub struct Compiler<'a> {
    code: &'a str,
    length: usize,
    position: usize,
    loop_stack: Vec<usize>,
    instructions: Vec<FoldedInstruction>,
}

impl<'a> Compiler<'a> {
    /// The source text, as characters.
    pub closed spec fn source(&self) -> Seq<char> {
        self.code@
    }

    /// How many characters of the source have been scanned.
    pub closed spec fn position(&self) -> nat {
        self.position as nat
    }

    /// The instructions emitted so far.
    pub closed spec fn program_so_far(&self) -> Seq<FoldedInstruction> {
        self.instructions@
    }

    /// The indices of the emitted `JumpIfZero` instructions still waiting for
    /// their `]`.
    pub closed spec fn open_jumps(&self) -> Seq<usize> {
        self.loop_stack@
    }

    /// Whether the instructions and the open jumps held so far are exactly
    /// what the scan of the first `n` characters gives.
    pub closed spec fn scanned_to(&self, n: int) -> bool {
        scan(self.code@, n) == (ScanState { program: self.instructions@, open: self.loop_stack@ })
    }

    /// The compiler's invariant: its state is the scan of the characters before
    /// the position, and the position is not in the middle of a run.
    pub closed spec fn wf(&self) -> bool {
        &&& self.length == self.code@.len()
        &&& self.position <= self.length
        &&& self.scanned_to(self.position as int)
        &&& self.run_boundary(self.position as nat)
    }

    spec fn run_boundary(&self, p: nat) -> bool {
        p == 0 || p >= self.code@.len() || self.code@[p - 1] != self.code@[p as int]
            || fold_kind(self.code@[p - 1]) is None
    }

    pub fn new(code: &'a str) -> (r: Compiler<'a>)
        ensures
            r.wf(),
            r.source() == code@,
            r.position() == 0,
            r.program_so_far() == Seq::<FoldedInstruction>::empty(),
            r.open_jumps() == Seq::<usize>::empty(),
    {
        let r = Compiler {
            code,
            length: code.unicode_len(),
            position: 0,
            loop_stack: Vec::new(),
            instructions: Vec::new(),
        };
        assert(r.scanned_to(0)) by {
            assert(r.instructions@ =~= seq![]);
            assert(r.loop_stack@ =~= seq![]);
        }
        r
    }

    /// Scans the rest of the source and returns the compiled program, or
    /// `UnmatchedBracket` when a `[` is left open. A `]` with no open `[` is
    /// ignored.
    pub fn compile(&mut self) -> (r: Result<Vec<FoldedInstruction>, BfError>)
        requires
            old(self).wf(),
        ensures
            final(self).wf(),
            final(self).source() == old(self).source(),
            match r {
                Ok(p) => compiled(old(self).source()) == Ok::<Seq<FoldedInstruction>, BfError>(p@),
                Err(e) => compiled(old(self).source()) == Err::<Seq<FoldedInstruction>, BfError>(e),
            },
            r matches Ok(p) ==> well_formed_program(p@),
    {
        while self.position < self.length
            invariant
                self.wf(),
                self.code@ == old(self).code@,
            decreases self.length - self.position,
        {
            let ghost s = self.code@;
            let ghost p = self.position as int;
            let c = self.code.get_char(self.position);
            proof {
                lemma_scan_bounds(s, p);
            }
            if c == '+' {
                self.fold_instruction('+', Instruction::Add);
            } else if c == '-' {
                self.fold_instruction('-', Instruction::Sub);
            } else if c == '>' {
                self.fold_instruction('>', Instruction::MoveRight);
            } else if c == '<' {
                self.fold_instruction('<', Instruction::MoveLeft);
            } else if c == '.' {
                self.fold_instruction('.', Instruction::Output);
            } else if c == ',' {
                self.fold_instruction(',', Instruction::Input);
            } else if c == '[' {
                let at = self.emit_instruction(FoldedInstruction::new(Instruction::JumpIfZero, 0));
                self.loop_stack.push(at);
                assert(self.scanned_to(p + 1));
            } else if c == ']' {
                if self.loop_stack.len() > 0 {
                    assert(scan(s, p).open[scan(s, p).open.len() - 1] < scan(s, p).program.len());
                    let last_open = self.loop_stack.pop().unwrap();
                    assert(last_open < self.instructions.len());
                    let close_at = self.emit_instruction(
                        FoldedInstruction::new(Instruction::JumpIfNotZero, last_open),
                    );
                    self.instructions[last_open] = FoldedInstruction::new(Instruction::JumpIfZero, close_at);
                }
                assert(self.scanned_to(p + 1));
            } else {
                assert(self.scanned_to(p + 1));
            }
            self.position = self.position + 1;
        }
        if self.loop_stack.len() == 0 {
            proof {
                lemma_compiled_well_formed(self.code@);
            }
            Ok(self.instructions.clone())
        } else {
            Err(BfError::UnmatchedBracket)
        }
    }

    /// Consumes the run of `chr` that starts at the position and emits one
    /// instruction whose argument is its length. The position is left on the
    /// run's last character.
    fn fold_instruction(&mut self, chr: char, instruction: Instruction)
        requires
            old(self).wf(),
            old(self).position < old(self).length,
            old(self).code@[old(self).position as int] == chr,
            fold_kind(chr) == Some(instruction),
        ensures
            final(self).code == old(self).code,
            final(self).length == old(self).length,
            old(self).position <= final(self).position < final(self).length,
            final(self).scanned_to(final(self).position + 1),
            final(self).code@[final(self).position as int] == chr,
            final(self).position + 1 < final(self).length ==> final(self).code@[final(self).position + 1] != chr,
            forall|q: int|
                old(self).position <= q <= final(self).position ==> #[trigger] final(self).code@[q] == chr,
            final(self).instructions@ == old(self).instructions@.push(
                FoldedInstruction {
                    instruction,
                    argument: (final(self).position - old(self).position + 1) as usize,
                },
            ),
            final(self).loop_stack@ == old(self).loop_stack@,
    {
        let ghost s = self.code@;
        let mut instruction_count: usize = 1;
        proof {
            lemma_scan_bounds(s, self.position as int);
            assert(scan(s, self.position + 1).program
                =~= self.instructions@.push(FoldedInstruction { instruction, argument: 1 }));
        }
        while self.position < self.length - 1 && self.code.get_char(self.position + 1) == chr
            invariant
                self.code == old(self).code,
                self.code@ == s,
                self.length == s.len(),
                fold_kind(chr) == Some(instruction),
                old(self).position <= self.position < self.length,
                1 <= instruction_count <= self.position + 1,
                instruction_count == self.position - old(self).position + 1,
                forall|q: int| old(self).position <= q <= self.position ==> #[trigger] s[q] == chr,
                s[self.position as int] == chr,
                self.instructions@ == old(self).instructions@,
                self.loop_stack@ == old(self).loop_stack@,
                scan(s, self.position + 1) == (ScanState {
                    program: self.instructions@.push(
                        FoldedInstruction { instruction, argument: instruction_count },
                    ),
                    open: self.loop_stack@,
                }),
            decreases self.length - self.position,
        {
            assert(s[self.position + 1] == chr);
            assert(scan(s, self.position + 2).program =~= self.instructions@.push(
                FoldedInstruction { instruction, argument: (instruction_count + 1) as usize },
            ));
            instruction_count = instruction_count + 1;
            self.position = self.position + 1;
        }
        self.emit_instruction(FoldedInstruction::new(instruction, instruction_count));
    }

    /// Appends an instruction and returns its index.
    fn emit_instruction(&mut self, fi: FoldedInstruction) -> (r: usize)
        requires
            old(self).instructions.len() < usize::MAX,
        ensures
            final(self).instructions@ == old(self).instructions@.push(fi),
            r == old(self).instructions.len(),
            final(self).code == old(self).code,
            final(self).length == old(self).length,
            final(self).position == old(self).position,
            final(self).loop_stack == old(self).loop_stack,
    {
        self.instructions.push(fi);
        self.instructions.len() - 1
    }
}

} // verus!
