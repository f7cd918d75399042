use crate::assembler::{
    asm_extend, asm_finalize, asm_jump, asm_new, asm_new_label, asm_offset, asm_place,
    asm_push_u32, asm_push_u64, assembled, assembler_busy, buffer_bytes, code_bytes, label_id, labels_made,
    le_bytes, linked, Assembler, Emit,
};
use crate::bfir::{
    balanced, col_of, compile, fault_at, folded, lemma_folded_len, lemma_lex_len, lex, line_of,
    never_underflows, well_bracketed, BfIR,
};
use crate::error::VMError;
use crate::linking::{lemma_listing_linkable, lemma_open_loops_len};
use crate::x64::{
    ADD_CELL, ADD_RCX_RAX, CALL_RAX, CLEAR_RAX, DISTANCE, JUMP, JUMP_IF_BELOW, JUMP_IF_CARRY,
    JUMP_IF_NOT_BELOW, JUMP_IF_NOT_ZERO, JUMP_IF_ZERO, MOV_EAX, MOV_RAX, PASS_CELL,
    RESTORE_AND_RETURN, RESTORE_POINTER, SAVE, SUB_CELL, SUB_RCX_RAX, TAKE_ARGUMENTS, TEST_CELL,
    TEST_LOWER, TEST_RAX, TEST_UPPER,
};
use vstd::prelude::*;

verus! {

/// The longest instruction sequence that code is generated for. Every instruction takes
/// at most 33 bytes, so that no jump in the code of such a sequence is longer than a near
/// jump can reach.
pub const MAX_PROGRAM_LEN: usize = 0x0300_0000;

/// The number of cells in the arena of a machine.
pub const MEMORY_SIZE: usize = 0x40_0000;

/// The addresses of the host routines that generated code calls. Each follows the
/// System V calling convention for x64 and returns zero, or the address of the error that
/// ends the run.
#[derive(Debug, Clone, Copy, PartialEq, Eq)]
pub struct Hooks {
    /// Called with the context handle and the address of the current cell: reads one
    /// byte into the cell.
    pub getbyte: u64,
    /// Called with the context handle and the address of the current cell: writes the
    /// cell as one byte.
    pub putbyte: u64,
    /// Called with nothing: makes the error for a data pointer that left the arena.
    pub overflow: u64,
}

/// The label of the code that reports a data pointer outside the arena.
pub open spec fn overflow_label() -> nat {
    0
}

/// The label of the code that ends the routine.
pub open spec fn exit_label() -> nat {
    1
}

/// The label at the start of the body of the loop with number `k`.
pub open spec fn entry_label(k: nat) -> nat {
    2 + 2 * k
}

/// The label behind the end of the loop with number `k`.
pub open spec fn leave_label(k: nat) -> nat {
    3 + 2 * k
}

/// How many loops begin among the first `n` instructions. Loops are numbered from zero in
/// the order in which they begin.
pub open spec fn loops_begun(code: Seq<BfIR>, n: int) -> nat
    decreases n,
{
    if n <= 0 {
        0
    } else if code[n - 1] == BfIR::Jz {
        loops_begun(code, n - 1) + 1
    } else {
        loops_begun(code, n - 1)
    }
}

/// The numbers of the loops that are open after the first `n` instructions, the
/// outermost first.
pub open spec fn open_loops(code: Seq<BfIR>, n: int) -> Seq<nat>
    decreases n,
{
    if n <= 0 {
        Seq::empty()
    } else {
        let before = open_loops(code, n - 1);
        match code[n - 1] {
            BfIR::Jz => before.push(loops_begun(code, n - 1)),
            BfIR::Jnz => if before.len() > 0 {
                before.drop_last()
            } else {
                before
            },
            _ => before,
        }
    }
}

/// A near jump: its opcode, four bytes for the distance, and the mark that has linking
/// fill them with the way to a label.
pub open spec fn near_jump(opcode: Seq<u8>, label: nat) -> Seq<Emit> {
    code_bytes(opcode) + code_bytes(DISTANCE@) + seq![Emit::Jump(label)]
}

/// A label, standing where the next byte will.
pub open spec fn label_here(label: nat) -> Seq<Emit> {
    seq![Emit::Label(label)]
}

/// The call of a host routine by its address.
pub open spec fn call_hook(hook: u64) -> Seq<Emit> {
    code_bytes(MOV_RAX@) + code_bytes(le_bytes(hook as nat, 8)) + code_bytes(CALL_RAX@)
}

/// The entry of the routine. It is called with the context handle in `rdi`, the lower
/// bound of the arena in `rsi` and the upper bound in `rdx`.
pub open spec fn prologue() -> Seq<Emit> {
    code_bytes(SAVE@) + code_bytes(TAKE_ARGUMENTS@)
}

/// Moves the data pointer forward by `x` cells, and goes to the overflow code if the sum
/// wrapped round or is not below the upper bound.
pub open spec fn advance(x: u32) -> Seq<Emit> {
    code_bytes(MOV_EAX@) + code_bytes(le_bytes(x as nat, 4)) + code_bytes(ADD_RCX_RAX@)
        + near_jump(JUMP_IF_CARRY@, overflow_label()) + code_bytes(TEST_UPPER@) + near_jump(
        JUMP_IF_NOT_BELOW@,
        overflow_label(),
    )
}

/// Moves the data pointer backward by `x` cells, and goes to the overflow code if the
/// difference wrapped round or is below the lower bound.
pub open spec fn retreat(x: u32) -> Seq<Emit> {
    code_bytes(MOV_EAX@) + code_bytes(le_bytes(x as nat, 4)) + code_bytes(SUB_RCX_RAX@)
        + near_jump(JUMP_IF_CARRY@, overflow_label()) + code_bytes(TEST_LOWER@) + near_jump(
        JUMP_IF_BELOW@,
        overflow_label(),
    )
}

/// Adds `x` to the current cell.
pub open spec fn raise(x: u8) -> Seq<Emit> {
    code_bytes(ADD_CELL@) + code_bytes(seq![x])
}

/// Subtracts `x` from the current cell.
pub open spec fn lower(x: u8) -> Seq<Emit> {
    code_bytes(SUB_CELL@) + code_bytes(seq![x])
}

/// Calls a host routine on the current cell, and leaves the routine with what came back
/// if that is not zero.
pub open spec fn transfer(hook: u64) -> Seq<Emit> {
    code_bytes(PASS_CELL@) + call_hook(hook) + code_bytes(TEST_RAX@) + near_jump(
        JUMP_IF_NOT_ZERO@,
        exit_label(),
    ) + code_bytes(RESTORE_POINTER@)
}

/// The head of loop `k`: jumps behind the loop if the current cell is zero; the body
/// starts behind the jump.
pub open spec fn loop_head(k: nat) -> Seq<Emit> {
    code_bytes(TEST_CELL@) + near_jump(JUMP_IF_ZERO@, leave_label(k)) + label_here(entry_label(k))
}

/// The tail of loop `k`: jumps back to the start of the body if the current cell is not
/// zero; the loop ends behind the jump.
pub open spec fn loop_tail(k: nat) -> Seq<Emit> {
    code_bytes(TEST_CELL@) + near_jump(JUMP_IF_NOT_ZERO@, entry_label(k)) + label_here(
        leave_label(k),
    )
}

/// The end of the routine: zero in `rax` for a run that came to its end; the overflow
/// code, which calls the host for its error; and the exit, which returns what `rax`
/// holds.
pub open spec fn epilogue(hooks: Hooks) -> Seq<Emit> {
    code_bytes(CLEAR_RAX@) + near_jump(JUMP@, exit_label()) + label_here(overflow_label())
        + call_hook(hooks.overflow) + label_here(exit_label()) + code_bytes(RESTORE_AND_RETURN@)
}

/// The code for the instruction at index `i`.
pub open spec fn chunk(code: Seq<BfIR>, hooks: Hooks, i: int) -> Seq<Emit> {
    match code[i] {
        BfIR::AddPtr(x) => advance(x),
        BfIR::SubPtr(x) => retreat(x),
        BfIR::AddVal(x) => raise(x),
        BfIR::SubVal(x) => lower(x),
        BfIR::GetByte => transfer(hooks.getbyte),
        BfIR::PutByte => transfer(hooks.putbyte),
        BfIR::Jz => loop_head(loops_begun(code, i)),
        BfIR::Jnz => loop_tail(open_loops(code, i).last()),
    }
}

/// The code for the first `n` instructions.
pub open spec fn body(code: Seq<BfIR>, hooks: Hooks, n: int) -> Seq<Emit>
    decreases n,
{
    if n <= 0 {
        Seq::empty()
    } else {
        body(code, hooks, n - 1) + chunk(code, hooks, n - 1)
    }
}

/// How many bytes the code of an instruction takes.
pub open spec fn chunk_size(i: BfIR) -> int {
    match i {
        BfIR::AddPtr(_) | BfIR::SubPtr(_) => 23,
        BfIR::AddVal(_) | BfIR::SubVal(_) => 3,
        BfIR::GetByte | BfIR::PutByte => 33,
        BfIR::Jz | BfIR::Jnz => 9,
    }
}

/// How many bytes the code of the first `n` instructions takes.
pub open spec fn body_size(code: Seq<BfIR>, n: int) -> int
    decreases n,
{
    if n <= 0 {
        0
    } else {
        body_size(code, n - 1) + chunk_size(code[n - 1])
    }
}

/// How many bytes the code of a program takes: 21 for the entry, 30 for the end, and
/// those of its instructions.
pub open spec fn code_size(code: Seq<BfIR>) -> int {
    51 + body_size(code, code.len() as int)
}

/// Everything that is handed to the assembler for a program.
pub open spec fn listing(code: Seq<BfIR>, hooks: Hooks) -> Seq<Emit> {
    prologue() + body(code, hooks, code.len() as int) + epilogue(hooks)
}

/// Assembles a near jump to a label.
fn emit_near_jump(ops: &mut Assembler, opcode: &[u8], label: dynasmrt::DynamicLabel)
    ensures
        assembled(*final(ops)) == assembled(*old(ops)) + near_jump(opcode@, label_id(label)),
        labels_made(*final(ops)) == labels_made(*old(ops)),
{
    asm_extend(ops, opcode);
    asm_extend(ops, DISTANCE.as_slice());
    asm_jump(ops, label, 0, 4, 0, 2);
    proof {
        assert(assembled(*ops) =~= assembled(*old(ops)) + near_jump(opcode@, label_id(label)));
    }
}

/// Assembles the call of a host routine by its address.
fn emit_call(ops: &mut Assembler, hook: u64)
    ensures
        assembled(*final(ops)) == assembled(*old(ops)) + call_hook(hook),
        labels_made(*final(ops)) == labels_made(*old(ops)),
{
    asm_extend(ops, MOV_RAX.as_slice());
    asm_push_u64(ops, hook);
    asm_extend(ops, CALL_RAX.as_slice());
    proof {
        assert(assembled(*ops) =~= assembled(*old(ops)) + call_hook(hook));
    }
}

/// Assembles the entry of the routine.
fn emit_prologue(ops: &mut Assembler)
    ensures
        assembled(*final(ops)) == assembled(*old(ops)) + prologue(),
        labels_made(*final(ops)) == labels_made(*old(ops)),
{
    asm_extend(ops, SAVE.as_slice());
    asm_extend(ops, TAKE_ARGUMENTS.as_slice());
    proof {
        assert(assembled(*ops) =~= assembled(*old(ops)) + prologue());
    }
}

/// Assembles a move of the data pointer forward.
fn emit_advance(ops: &mut Assembler, x: u32, overflow: dynasmrt::DynamicLabel)
    requires
        label_id(overflow) == overflow_label(),
    ensures
        assembled(*final(ops)) == assembled(*old(ops)) + advance(x),
        labels_made(*final(ops)) == labels_made(*old(ops)),
{
    asm_extend(ops, MOV_EAX.as_slice());
    asm_push_u32(ops, x);
    asm_extend(ops, ADD_RCX_RAX.as_slice());
    emit_near_jump(ops, JUMP_IF_CARRY.as_slice(), overflow);
    asm_extend(ops, TEST_UPPER.as_slice());
    emit_near_jump(ops, JUMP_IF_NOT_BELOW.as_slice(), overflow);
    proof {
        assert(assembled(*ops) =~= assembled(*old(ops)) + advance(x));
    }
}

/// Assembles a move of the data pointer backward.
fn emit_retreat(ops: &mut Assembler, x: u32, overflow: dynasmrt::DynamicLabel)
    requires
        label_id(overflow) == overflow_label(),
    ensures
        assembled(*final(ops)) == assembled(*old(ops)) + retreat(x),
        labels_made(*final(ops)) == labels_made(*old(ops)),
{
    asm_extend(ops, MOV_EAX.as_slice());
    asm_push_u32(ops, x);
    asm_extend(ops, SUB_RCX_RAX.as_slice());
    emit_near_jump(ops, JUMP_IF_CARRY.as_slice(), overflow);
    asm_extend(ops, TEST_LOWER.as_slice());
    emit_near_jump(ops, JUMP_IF_BELOW.as_slice(), overflow);
    proof {
        assert(assembled(*ops) =~= assembled(*old(ops)) + retreat(x));
    }
}

/// Assembles an addition to the current cell.
fn emit_raise(ops: &mut Assembler, x: u8)
    ensures
        assembled(*final(ops)) == assembled(*old(ops)) + raise(x),
        labels_made(*final(ops)) == labels_made(*old(ops)),
{
    let delta: [u8; 1] = [x];
    asm_extend(ops, ADD_CELL.as_slice());
    asm_extend(ops, delta.as_slice());
    proof {
        assert(delta@ =~= seq![x]);
        assert(assembled(*ops) =~= assembled(*old(ops)) + raise(x));
    }
}

/// Assembles a subtraction from the current cell.
fn emit_lower(ops: &mut Assembler, x: u8)
    ensures
        assembled(*final(ops)) == assembled(*old(ops)) + lower(x),
        labels_made(*final(ops)) == labels_made(*old(ops)),
{
    let delta: [u8; 1] = [x];
    asm_extend(ops, SUB_CELL.as_slice());
    asm_extend(ops, delta.as_slice());
    proof {
        assert(delta@ =~= seq![x]);
        assert(assembled(*ops) =~= assembled(*old(ops)) + lower(x));
    }
}

/// Assembles the call of a host routine on the current cell.
fn emit_transfer(ops: &mut Assembler, hook: u64, exit: dynasmrt::DynamicLabel)
    requires
        label_id(exit) == exit_label(),
    ensures
        assembled(*final(ops)) == assembled(*old(ops)) + transfer(hook),
        labels_made(*final(ops)) == labels_made(*old(ops)),
{
    asm_extend(ops, PASS_CELL.as_slice());
    emit_call(ops, hook);
    asm_extend(ops, TEST_RAX.as_slice());
    emit_near_jump(ops, JUMP_IF_NOT_ZERO.as_slice(), exit);
    asm_extend(ops, RESTORE_POINTER.as_slice());
    proof {
        assert(assembled(*ops) =~= assembled(*old(ops)) + transfer(hook));
    }
}

/// Assembles the head of a loop: makes the loop's two labels, jumps to the second if
/// the cell is zero, and places the first.
fn emit_loop_head(ops: &mut Assembler, Ghost(k): Ghost<nat>) -> (pair: (
    dynasmrt::DynamicLabel,
    dynasmrt::DynamicLabel,
))
    requires
        labels_made(*old(ops)) == entry_label(k),
    ensures
        label_id(pair.0) == entry_label(k),
        label_id(pair.1) == leave_label(k),
        labels_made(*final(ops)) == entry_label(k + 1),
        assembled(*final(ops)) == assembled(*old(ops)) + loop_head(k),
{
    let left = asm_new_label(ops);
    let right = asm_new_label(ops);
    asm_extend(ops, TEST_CELL.as_slice());
    emit_near_jump(ops, JUMP_IF_ZERO.as_slice(), right);
    asm_place(ops, left);
    proof {
        assert(assembled(*ops) =~= assembled(*old(ops)) + loop_head(k));
    }
    (left, right)
}

/// Assembles the tail of a loop: jumps back to the loop's first label if the cell is not
/// zero, and places the second.
fn emit_loop_tail(
    ops: &mut Assembler,
    left: dynasmrt::DynamicLabel,
    right: dynasmrt::DynamicLabel,
    Ghost(k): Ghost<nat>,
)
    requires
        label_id(left) == entry_label(k),
        label_id(right) == leave_label(k),
    ensures
        assembled(*final(ops)) == assembled(*old(ops)) + loop_tail(k),
        labels_made(*final(ops)) == labels_made(*old(ops)),
{
    asm_extend(ops, TEST_CELL.as_slice());
    emit_near_jump(ops, JUMP_IF_NOT_ZERO.as_slice(), left);
    asm_place(ops, right);
    proof {
        assert(assembled(*ops) =~= assembled(*old(ops)) + loop_tail(k));
    }
}

/// Assembles the end of the routine.
fn emit_epilogue(
    ops: &mut Assembler,
    hooks: &Hooks,
    overflow: dynasmrt::DynamicLabel,
    exit: dynasmrt::DynamicLabel,
)
    requires
        label_id(overflow) == overflow_label(),
        label_id(exit) == exit_label(),
    ensures
        assembled(*final(ops)) == assembled(*old(ops)) + epilogue(*hooks),
        labels_made(*final(ops)) == labels_made(*old(ops)),
{
    asm_extend(ops, CLEAR_RAX.as_slice());
    emit_near_jump(ops, JUMP.as_slice(), exit);
    asm_place(ops, overflow);
    emit_call(ops, hooks.overflow);
    asm_place(ops, exit);
    asm_extend(ops, RESTORE_AND_RETURN.as_slice());
    proof {
        assert(assembled(*ops) =~= assembled(*old(ops)) + epilogue(*hooks));
    }
}

/// Generates the native code of a program: a routine for x64 that runs the instructions
/// on an arena of cells.
///
/// The routine takes a context handle, the lower bound of the arena and its upper bound,
/// and returns zero, or the address of the error that stopped it. Returns the code in
/// executable memory and the offset of the routine's entry in it.
pub fn generate(code: &[BfIR], hooks: &Hooks) -> (r: Result<
    (dynasmrt::ExecutableBuffer, usize),
    VMError,
>)
    requires
        well_bracketed(code@),
        code@.len() <= MAX_PROGRAM_LEN,
    ensures
        r matches Ok((buf, start)) ==> {
            &&& start == 0
            &&& buffer_bytes(buf) == linked(listing(code@, *hooks))
            &&& buffer_bytes(buf).len() == code_size(code@)
        },
        r matches Err(e) ==> e is IO,
{
    let mut ops = match asm_new() {
        Ok(ops) => ops,
        Err(e) => {
            return Err(VMError::IO(e));
        },
    };
    let start: usize = asm_offset(&ops);
    let overflow = asm_new_label(&mut ops);
    let exit = asm_new_label(&mut ops);
    let mut loops: Vec<(dynasmrt::DynamicLabel, dynasmrt::DynamicLabel)> = Vec::new();
    emit_prologue(&mut ops);
    proof {
        assert(assembled(ops) =~= prologue() + body(code@, *hooks, 0));
    }
    let n: usize = code.len();
    let mut i: usize = 0;
    while i < n
        invariant
            n == code@.len(),
            i <= n,
            never_underflows(code@),
            label_id(overflow) == overflow_label(),
            label_id(exit) == exit_label(),
            assembled(ops) == prologue() + body(code@, *hooks, i as int),
            labels_made(ops) == entry_label(loops_begun(code@, i as int)),
            loops.len() == open_loops(code@, i as int).len(),
            forall|m: int|
                0 <= m < loops.len() ==> label_id(#[trigger] loops[m].0) == entry_label(
                    open_loops(code@, i as int)[m],
                ) && label_id(loops[m].1) == leave_label(open_loops(code@, i as int)[m]),
        decreases n - i,
    {
        let ghost before = assembled(ops);
        let ghost open = open_loops(code@, i as int);
        proof {
            lemma_open_loops_len(code@, i as int);
            lemma_open_loops_len(code@, i + 1);
        }
        match code[i] {
            BfIR::AddPtr(x) => emit_advance(&mut ops, x, overflow),
            BfIR::SubPtr(x) => emit_retreat(&mut ops, x, overflow),
            BfIR::AddVal(x) => emit_raise(&mut ops, x),
            BfIR::SubVal(x) => emit_lower(&mut ops, x),
            BfIR::GetByte => emit_transfer(&mut ops, hooks.getbyte, exit),
            BfIR::PutByte => emit_transfer(&mut ops, hooks.putbyte, exit),
            BfIR::Jz => {
                let pair = emit_loop_head(&mut ops, Ghost(loops_begun(code@, i as int)));
                loops.push(pair);
            },
            BfIR::Jnz => {
                match loops.pop() {
                    Some((left, right)) => {
                        emit_loop_tail(&mut ops, left, right, Ghost(open.last()));
                    },
                    None => {
                        proof {
                            assert(false);
                        }
                    },
                }
            },
        }
        proof {
            assert(assembled(ops) == before + chunk(code@, *hooks, i as int));
            assert(assembled(ops) =~= prologue() + body(code@, *hooks, i + 1));
        }
        i = i + 1;
    }
    emit_epilogue(&mut ops, hooks, overflow, exit);
    proof {
        assert(assembled(ops) =~= listing(code@, *hooks));
        lemma_listing_linkable(code@, *hooks);
    }
    match asm_finalize(ops) {
        Some(buf) => Ok((buf, start)),
        None => Err(VMError::IO(assembler_busy())),
    }
}

/// A machine that is ready to run: the native code of its program and its arena of
/// cells. The arena is owned by the machine and is not cleared between runs.
pub struct BFVM {
    /// The native code of the program, in executable memory.
    pub code: dynasmrt::ExecutableBuffer,
    /// The offset of the routine's entry in the code.
    pub start: usize,
    /// The cells. The data pointer starts at the first and may never leave them.
    pub memory: Vec<u8>,
}

/// An arena in which nothing has been written yet.
pub open spec fn blank_arena() -> Seq<u8> {
    Seq::new(MEMORY_SIZE as nat, |i: int| 0u8)
}

impl BFVM {
    /// The machine is as `new` makes it for this source text and these host routines.
    pub open spec fn is_fresh(&self, src: Seq<char>, hooks: Hooks) -> bool {
        &&& self.start == 0
        &&& buffer_bytes(self.code) == linked(listing(folded(lex(src)), hooks))
        &&& buffer_bytes(self.code).len() == code_size(folded(lex(src)))
        &&& self.memory@ == blank_arena()
    }

    /// Builds the machine for a source text: compiles the text, generates the native
    /// code, and makes an arena of `MEMORY_SIZE` cells that are all zero.
    ///
    /// A text that is no program gives its compile error and nothing else is done. For a
    /// program the only failure left is that of the system to provide memory for the
    /// code. The folding pass is always applied: `optimize` changes nothing.
    pub fn new(src: &str, hooks: &Hooks, optimize: bool) -> (r: Result<BFVM, VMError>)
        requires
            src@.len() <= MAX_PROGRAM_LEN,
        ensures
            !balanced(src@) ==> (r matches Err(VMError::Compile(e)) && exists|i: int|
                fault_at(src@, e.kind, i) && e.line == line_of(src@, i) && e.col == col_of(
                    src@,
                    i,
                )),
            balanced(src@) ==> match r {
                Ok(vm) => vm.is_fresh(src@, *hooks),
                Err(e) => e is IO,
            },
    {
        let ir = match compile(src) {
            Ok(ir) => ir,
            Err(e) => {
                return Err(VMError::Compile(e));
            },
        };
        proof {
            lemma_lex_len(src@);
            lemma_folded_len(lex(src@));
        }
        let (code, start) = match generate(ir.as_slice(), hooks) {
            Ok(pair) => pair,
            Err(e) => {
                return Err(e);
            },
        };
        let memory: Vec<u8> = vec![0u8; MEMORY_SIZE];
        proof {
            assert(memory@ =~= blank_arena());
        }
        Ok(BFVM { code, start, memory })
    }
}

} // verus!
