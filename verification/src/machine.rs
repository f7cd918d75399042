use crate::bfir::{ir_depth, paired, well_bracketed, BfIR};
use vstd::prelude::*;

verus! {

/// The table holds, for the entry of each loop, the index of its exit, for each exit the
/// index of its entry, and for every other instruction its own index.
pub open spec fn is_jump_table(code: Seq<BfIR>, table: Seq<usize>) -> bool {
    &&& table.len() == code.len()
    &&& forall|i: int|
        0 <= i < code.len() ==> match #[trigger] code[i] {
            BfIR::Jz => paired(code, i, table[i] as int),
            BfIR::Jnz => paired(code, table[i] as int, i),
            _ => table[i] == i,
        }
}

/// Finds the partner of every loop bracket.
pub fn jump_table(code: &[BfIR]) -> (table: Vec<usize>)
    requires
        well_bracketed(code@),
    ensures
        is_jump_table(code@, table@),
{
    let n: usize = code.len();
    let mut table: Vec<usize> = Vec::new();
    let mut open: Vec<usize> = Vec::new();
    let mut i: usize = 0;
    while i < n
        invariant
            n == code@.len(),
            well_bracketed(code@),
            i <= n,
            table.len() == i,
            open.len() == ir_depth(code@, i as int),
            forall|m: int|
                0 <= m < open.len() ==> {
                    &&& #[trigger] open[m] < i
                    &&& code@[open[m] as int] == BfIR::Jz
                    &&& ir_depth(code@, open[m] as int) == m
                    &&& forall|k: int| open[m] < k <= i ==> ir_depth(code@, k) > m
                },
            forall|k: int|
                0 <= k < i ==> match #[trigger] code@[k] {
                    BfIR::Jz => paired(code@, k, table[k] as int) || exists|m: int|
                        0 <= m < open.len() && open[m] == k,
                    BfIR::Jnz => paired(code@, table[k] as int, k),
                    _ => table[k] == k,
                },
        decreases n - i,
    {
        let ghost before = table@;
        let ghost stack = open@;
        proof {
            assert(ir_depth(code@, i + 1) >= 0);
        }
        table.push(i);
        match code[i] {
            BfIR::Jz => {
                open.push(i);
                proof {
                    assert(open@[stack.len() as int] == i);
                    assert forall|k: int| 0 <= k < i + 1 implies match #[trigger] code@[k] {
                        BfIR::Jz => paired(code@, k, table[k] as int) || exists|m: int|
                            0 <= m < open.len() && open[m] == k,
                        BfIR::Jnz => paired(code@, table[k] as int, k),
                        _ => table[k] == k,
                    } by {
                        if k < i && code@[k] == BfIR::Jz && !paired(code@, k, before[k] as int) {
                            let m = choose|m: int| 0 <= m < stack.len() && stack[m] == k;
                            assert(open[m] == k);
                        }
                    }
                }
            },
            BfIR::Jnz => {
                let j = match open.pop() {
                    Some(j) => j,
                    None => {
                        proof {
                            assert(false);
                        }
                        i
                    },
                };
                table.set(i, j);
                table.set(j, i);
                proof {
                    assert(stack[stack.len() - 1] == j);
                    assert(paired(code@, j as int, i as int));
                    assert forall|k: int| 0 <= k < i + 1 implies match #[trigger] code@[k] {
                        BfIR::Jz => paired(code@, k, table[k] as int) || exists|m: int|
                            0 <= m < open.len() && open[m] == k,
                        BfIR::Jnz => paired(code@, table[k] as int, k),
                        _ => table[k] == k,
                    } by {
                        if k < i && k != j && code@[k] == BfIR::Jz && !paired(
                            code@,
                            k,
                            before[k] as int,
                        ) {
                            let m = choose|m: int| 0 <= m < stack.len() && stack[m] == k;
                            assert(m < stack.len() - 1);
                            assert(open[m] == k);
                        }
                    }
                }
            },
            _ => {},
        }
        i = i + 1;
    }
    table
}

/// The value of a cell after a read was tried on it: the byte that was read, or what
/// the cell held where the stream was at its end.
pub fn cell_after_read(cell: u8, got: Option<u8>) -> (r: u8)
    ensures
        r == match got {
            Some(byte) => byte,
            None => cell,
        },
{
    match got {
        Some(byte) => byte,
        None => cell,
    }
}

/// What a step of the machine asks of its host.
#[derive(Debug, Clone, Copy, PartialEq, Eq, Structural)]
pub enum Effect {
    /// Nothing.
    Continue,
    /// Read one byte from the input, and `feed` the machine what came.
    Read,
    /// Write this byte to the output.
    Write(u8),
    /// The program has come to its end.
    Done,
    /// The data pointer would have left the arena: the run has failed, and no cell
    /// outside the arena was touched.
    Overflow,
}

/// The part of a machine that a run changes.
pub struct State {
    /// The cells of the arena.
    pub cells: Seq<u8>,
    /// The index of the current cell.
    pub ptr: int,
    /// The index of the instruction to run next.
    pub pc: int,
}

/// How far a run on given input has come.
pub struct Progress {
    /// The state of the machine.
    pub state: State,
    /// How many bytes of the input have been read.
    pub consumed: int,
    /// The bytes written so far.
    pub output: Seq<u8>,
    /// `Done` or `Overflow` where the run has ended, `Continue` where it has not.
    pub end: Effect,
}

/// What a run on given input came to.
#[derive(Debug, PartialEq, Eq)]
pub struct Report {
    /// `Done` for a program that came to its end, `Overflow` for one whose data pointer
    /// would have left the arena, `Continue` for one that was still running when the
    /// steps were used up.
    pub end: Effect,
    /// How many bytes of the input were read.
    pub consumed: usize,
    /// The bytes that were written.
    pub output: Vec<u8>,
}

/// A program on its arena, run one instruction at a time. The host does the reads and
/// writes that the steps ask for.
pub struct Machine {
    /// The program.
    pub code: Vec<BfIR>,
    /// The partner of each loop bracket of the program.
    pub jumps: Vec<usize>,
    /// The arena.
    pub cells: Vec<u8>,
    /// The index of the current cell.
    pub ptr: usize,
    /// The index of the instruction to run next.
    pub pc: usize,
}

/// The sum of a cell and a delta, modulo 256.
pub open spec fn cell_plus(cell: u8, delta: u8) -> u8 {
    ((cell + delta) % 0x100) as u8
}

/// The difference of a cell and a delta, modulo 256.
pub open spec fn cell_minus(cell: u8, delta: u8) -> u8 {
    ((cell + 0x100 - delta) % 0x100) as u8
}

/// What is left of a small number when the multiples of 256 are taken out of it.
proof fn lemma_wrap(a: int)
    requires
        0 <= a < 0x300,
    ensures
        a % 0x100 == if a < 0x100 {
            a
        } else if a < 0x200 {
            a - 0x100
        } else {
            a - 0x200
        },
{
}

/// Folding does not change what a run of value instructions does to a cell: two deltas
/// one after the other give what their sum, wrapped as folding wraps it, gives at once.
pub proof fn lemma_deltas_add_up(cell: u8, x: u8, y: u8)
    ensures
        cell_plus(cell_plus(cell, x), y) == cell_plus(cell, ((x + y) % 0x100) as u8),
        cell_minus(cell_minus(cell, x), y) == cell_minus(cell, ((x + y) % 0x100) as u8),
{
    let sum = ((x + y) % 0x100) as u8;
    lemma_wrap(x + y);
    lemma_wrap(cell + x);
    lemma_wrap(cell_plus(cell, x) + y);
    lemma_wrap(cell + sum);
    lemma_wrap(cell + 0x100 - x);
    lemma_wrap(cell_minus(cell, x) + 0x100 - y);
    lemma_wrap(cell + 0x100 - sum);
}

/// One step of a program: the state after it, and what it asks of the host.
///
/// A move of the data pointer that would leave the arena changes nothing and reports
/// the overflow. A read asks for a byte and goes on; the byte is stored when it is fed.
/// Behind the last instruction nothing changes any more.
pub open spec fn step_of(code: Seq<BfIR>, jumps: Seq<usize>, s: State) -> (State, Effect) {
    if s.pc >= code.len() {
        (s, Effect::Done)
    } else {
        let on = State { pc: s.pc + 1, ..s };
        match code[s.pc] {
            BfIR::AddVal(x) => (
                State { cells: s.cells.update(s.ptr, cell_plus(s.cells[s.ptr], x)), ..on },
                Effect::Continue,
            ),
            BfIR::SubVal(x) => (
                State { cells: s.cells.update(s.ptr, cell_minus(s.cells[s.ptr], x)), ..on },
                Effect::Continue,
            ),
            BfIR::AddPtr(x) => if s.ptr + x >= s.cells.len() {
                (s, Effect::Overflow)
            } else {
                (State { ptr: s.ptr + x, ..on }, Effect::Continue)
            },
            BfIR::SubPtr(x) => if s.ptr - x < 0 {
                (s, Effect::Overflow)
            } else {
                (State { ptr: s.ptr - x, ..on }, Effect::Continue)
            },
            BfIR::GetByte => (on, Effect::Read),
            BfIR::PutByte => (on, Effect::Write(s.cells[s.ptr])),
            BfIR::Jz => if s.cells[s.ptr] == 0 {
                (State { pc: jumps[s.pc] + 1, ..s }, Effect::Continue)
            } else {
                (on, Effect::Continue)
            },
            BfIR::Jnz => if s.cells[s.ptr] != 0 {
                (State { pc: jumps[s.pc] + 1, ..s }, Effect::Continue)
            } else {
                (on, Effect::Continue)
            },
        }
    }
}

/// The state once a read has come to `got`.
pub open spec fn fed(s: State, got: Option<u8>) -> State {
    match got {
        Some(byte) => State { cells: s.cells.update(s.ptr, byte), ..s },
        None => s,
    }
}

/// A run of at most `steps` steps that reads from `input` and stops at the end of the
/// program or at an overflow. A read at the end of the input leaves its cell as it is.
pub open spec fn run_of(
    code: Seq<BfIR>,
    jumps: Seq<usize>,
    input: Seq<u8>,
    from: Progress,
    steps: nat,
) -> Progress
    decreases steps,
{
    if steps == 0 {
        from
    } else {
        let (state, effect) = step_of(code, jumps, from.state);
        let left = (steps - 1) as nat;
        match effect {
            Effect::Continue => run_of(code, jumps, input, Progress { state, ..from }, left),
            Effect::Read => if from.consumed < input.len() {
                run_of(
                    code,
                    jumps,
                    input,
                    Progress {
                        state: fed(state, Some(input[from.consumed])),
                        consumed: from.consumed + 1,
                        ..from
                    },
                    left,
                )
            } else {
                run_of(code, jumps, input, Progress { state, ..from }, left)
            },
            Effect::Write(byte) => run_of(
                code,
                jumps,
                input,
                Progress { state, output: from.output.push(byte), ..from },
                left,
            ),
            Effect::Done => Progress { state, end: Effect::Done, ..from },
            Effect::Overflow => Progress { state, end: Effect::Overflow, ..from },
        }
    }
}

impl Machine {
    /// The part of the machine that a run changes.
    pub open spec fn state(&self) -> State {
        State { cells: self.cells@, ptr: self.ptr as int, pc: self.pc as int }
    }

    /// The machine is in order: its table fits its program, the data pointer is inside
    /// the arena, and the next instruction is one of the program or its end.
    pub open spec fn wf(&self) -> bool {
        &&& is_jump_table(self.code@, self.jumps@)
        &&& self.ptr < self.cells@.len()
        &&& self.pc <= self.code@.len()
    }

    /// A machine for a program, at its first instruction, on an arena of `size` cells
    /// that are all zero, with the data pointer on the first.
    pub fn new(code: Vec<BfIR>, size: usize) -> (m: Machine)
        requires
            well_bracketed(code@),
            size > 0,
        ensures
            m.wf(),
            m.code@ == code@,
            m.cells@ == Seq::new(size as nat, |i: int| 0u8),
            m.ptr == 0,
            m.pc == 0,
    {
        let jumps = jump_table(code.as_slice());
        let cells: Vec<u8> = vec![0u8; size];
        proof {
            assert(cells@ =~= Seq::new(size as nat, |i: int| 0u8));
        }
        Machine { code, jumps, cells, ptr: 0, pc: 0 }
    }

    /// Sets the machine back to the start of its program, with the data pointer on the
    /// first cell. The cells keep what the runs before have left in them.
    pub fn rewind(&mut self)
        requires
            old(self).wf(),
        ensures
            final(self).wf(),
            final(self).code == old(self).code,
            final(self).jumps == old(self).jumps,
            final(self).cells == old(self).cells,
            final(self).ptr == 0,
            final(self).pc == 0,
    {
        self.ptr = 0;
        self.pc = 0;
    }

    /// Runs one instruction.
    pub fn step(&mut self) -> (effect: Effect)
        requires
            old(self).wf(),
        ensures
            final(self).wf(),
            final(self).code == old(self).code,
            final(self).jumps == old(self).jumps,
            (final(self).state(), effect) == step_of(
                old(self).code@,
                old(self).jumps@,
                old(self).state(),
            ),
    {
        if self.pc >= self.code.len() {
            return Effect::Done;
        }
        let ghost before = self.state();
        let at: usize = self.pc;
        let cell: u8 = self.cells[self.ptr];
        let mut effect = Effect::Continue;
        match self.code[at] {
            BfIR::AddVal(x) => {
                self.cells.set(self.ptr, cell.wrapping_add(x));
                self.pc = at + 1;
            },
            BfIR::SubVal(x) => {
                self.cells.set(self.ptr, cell.wrapping_sub(x));
                self.pc = at + 1;
            },
            BfIR::AddPtr(x) => {
                let room: usize = self.cells.len() - self.ptr;
                if x as usize >= room {
                    effect = Effect::Overflow;
                } else {
                    self.ptr = self.ptr + x as usize;
                    self.pc = at + 1;
                }
            },
            BfIR::SubPtr(x) => {
                if x as usize > self.ptr {
                    effect = Effect::Overflow;
                } else {
                    self.ptr = self.ptr - x as usize;
                    self.pc = at + 1;
                }
            },
            BfIR::GetByte => {
                effect = Effect::Read;
                self.pc = at + 1;
            },
            BfIR::PutByte => {
                effect = Effect::Write(cell);
                self.pc = at + 1;
            },
            BfIR::Jz => {
                if cell == 0 {
                    self.pc = self.jumps[at] + 1;
                } else {
                    self.pc = at + 1;
                }
            },
            BfIR::Jnz => {
                if cell != 0 {
                    self.pc = self.jumps[at] + 1;
                } else {
                    self.pc = at + 1;
                }
            },
        }
        proof {
            assert(self.state().cells =~= step_of(self.code@, self.jumps@, before).0.cells);
        }
        effect
    }

    /// Hands the machine what a read came to: a byte for the current cell, or nothing at
    /// the end of the input, which leaves the cell as it is.
    pub fn feed(&mut self, got: Option<u8>)
        requires
            old(self).wf(),
        ensures
            final(self).wf(),
            final(self).code == old(self).code,
            final(self).jumps == old(self).jumps,
            final(self).ptr == old(self).ptr,
            final(self).pc == old(self).pc,
            final(self).cells@ == match got {
                Some(byte) => old(self).cells@.update(old(self).ptr as int, byte),
                None => old(self).cells@,
            },
    {
        let cell: u8 = self.cells[self.ptr];
        self.cells.set(self.ptr, cell_after_read(cell, got));
        proof {
            assert(self.cells@ =~= match got {
                Some(byte) => old(self).cells@.update(old(self).ptr as int, byte),
                None => old(self).cells@,
            });
        }
    }

    /// The machine's state as the progress of a run that has read and written this much.
    pub open spec fn progress(&self, consumed: int, output: Seq<u8>, end: Effect) -> Progress {
        Progress { state: self.state(), consumed, output, end }
    }

    /// Runs the machine from where it stands for at most `steps` steps, reading from
    /// `input` and collecting what is written.
    pub fn run(&mut self, input: &[u8], steps: usize) -> (report: Report)
        requires
            old(self).wf(),
        ensures
            final(self).wf(),
            final(self).code == old(self).code,
            final(self).jumps == old(self).jumps,
            final(self).progress(report.consumed as int, report.output@, report.end) == run_of(
                old(self).code@,
                old(self).jumps@,
                input@,
                old(self).progress(0, Seq::empty(), Effect::Continue),
                steps as nat,
            ),
    {
        let ghost start = self.progress(0, Seq::empty(), Effect::Continue);
        let ghost whole = run_of(self.code@, self.jumps@, input@, start, steps as nat);
        let mut output: Vec<u8> = Vec::new();
        let mut consumed: usize = 0;
        let mut left: usize = steps;
        let mut end = Effect::Continue;
        while left > 0 && end == Effect::Continue
            invariant
                self.wf(),
                self.code == old(self).code,
                self.jumps == old(self).jumps,
                consumed <= input@.len(),
                end == Effect::Continue || end == Effect::Done || end == Effect::Overflow,
                end == Effect::Continue ==> whole == run_of(
                    self.code@,
                    self.jumps@,
                    input@,
                    self.progress(consumed as int, output@, end),
                    left as nat,
                ),
                end != Effect::Continue ==> whole == self.progress(consumed as int, output@, end),
            decreases left + (if end == Effect::Continue { 1int } else { 0int }),
        {
            left = left - 1;
            match self.step() {
                Effect::Continue => {},
                Effect::Read => {
                    if consumed < input.len() {
                        self.feed(Some(input[consumed]));
                        consumed = consumed + 1;
                    } else {
                        self.feed(None);
                    }
                },
                Effect::Write(byte) => {
                    output.push(byte);
                },
                Effect::Done => {
                    end = Effect::Done;
                },
                Effect::Overflow => {
                    end = Effect::Overflow;
                },
            }
        }
        Report { end, consumed, output }
    }
}

} // verus!
