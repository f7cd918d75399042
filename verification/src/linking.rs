use crate::assembler::{byte_count, code_bytes, le_bytes, linkable, placed, targets, Emit};
use crate::bfir::{ir_depth, never_underflows, paired, well_bracketed, BfIR};
use crate::bfjit::{
    body, body_size, call_hook, chunk, chunk_size, code_size, entry_label, exit_label, label_here, leave_label, listing,
    loops_begun, near_jump, open_loops, overflow_label, prologue, transfer, Hooks,
    MAX_PROGRAM_LEN,
};
use crate::listing::{
    lemma_sound_bytes, lemma_sound_concat, lemma_sound_empty, lemma_then_bytes, lemma_then_label,
    lemma_then_mark, sound,
};
use crate::x64::{
    ADD_CELL, ADD_RCX_RAX, CALL_RAX, CLEAR_RAX, DISTANCE, JUMP, JUMP_IF_BELOW, JUMP_IF_CARRY,
    JUMP_IF_NOT_BELOW, JUMP_IF_NOT_ZERO, JUMP_IF_ZERO, MOV_EAX, MOV_RAX, PASS_CELL,
    RESTORE_AND_RETURN, RESTORE_POINTER, SAVE, SUB_CELL, SUB_RCX_RAX, TAKE_ARGUMENTS, TEST_CELL,
    TEST_LOWER, TEST_RAX, TEST_UPPER,
};
use vstd::prelude::*;

verus! {

/// While no prefix leaves more loops than it has entered, the open loops are as many as
/// the depth says.
pub proof fn lemma_open_loops_len(code: Seq<BfIR>, n: int)
    requires
        0 <= n <= code.len(),
        never_underflows(code),
    ensures
        open_loops(code, n).len() == ir_depth(code, n),
    decreases n,
{
    if n > 0 {
        lemma_open_loops_len(code, n - 1);
        assert(ir_depth(code, n) >= 0);
    }
}

/// A number has as many low bytes as are asked for.
proof fn lemma_le_bytes_len(x: nat, n: nat)
    ensures
        le_bytes(x, n).len() == n,
    decreases n,
{
    if n > 0 {
        lemma_le_bytes_len(x / 0x100, (n - 1) as nat);
    }
}

/// A sound piece with a near jump behind it.
proof fn lemma_then_jump(
    a: Seq<Emit>,
    bytes: int,
    stands: Set<nat>,
    aims: Set<nat>,
    opcode: Seq<u8>,
    id: nat,
)
    requires
        sound(a, bytes, stands, aims),
        bytes >= 0,
    ensures
        sound(a + near_jump(opcode, id), bytes + opcode.len() + 4, stands, aims.insert(id)),
{
    lemma_then_bytes(a, bytes, stands, aims, opcode);
    lemma_then_bytes(a + code_bytes(opcode), bytes + opcode.len(), stands, aims, DISTANCE@);
    lemma_then_mark(
        a + code_bytes(opcode) + code_bytes(DISTANCE@),
        bytes + opcode.len() + 4,
        stands,
        aims,
        id,
    );
    assert(a + near_jump(opcode, id) =~= a + code_bytes(opcode) + code_bytes(DISTANCE@)
        + seq![Emit::Jump(id)]);
}

/// A sound piece with the call of a host routine behind it.
proof fn lemma_then_call(a: Seq<Emit>, bytes: int, stands: Set<nat>, aims: Set<nat>, hook: u64)
    requires
        sound(a, bytes, stands, aims),
    ensures
        sound(a + call_hook(hook), bytes + 12, stands, aims),
{
    let p1 = a + code_bytes(MOV_RAX@);
    let p2 = p1 + code_bytes(le_bytes(hook as nat, 8));
    let p3 = p2 + code_bytes(CALL_RAX@);
    lemma_le_bytes_len(hook as nat, 8);
    lemma_then_bytes(a, bytes, stands, aims, MOV_RAX@);
    lemma_then_bytes(p1, bytes + 2, stands, aims, le_bytes(hook as nat, 8));
    lemma_then_bytes(p2, bytes + 10, stands, aims, CALL_RAX@);
    assert(p3 =~= a + call_hook(hook));
}

/// The shape that the two moves of the data pointer share: the delta into `eax`, the
/// step, a jump on a carry, the test against a bound, and a jump on its outcome.
spec fn move_code(x: u32, step: Seq<u8>, bound: Seq<u8>, outside: Seq<u8>) -> Seq<Emit> {
    code_bytes(MOV_EAX@) + code_bytes(le_bytes(x as nat, 4)) + code_bytes(step) + near_jump(
        JUMP_IF_CARRY@,
        overflow_label(),
    ) + code_bytes(bound) + near_jump(outside, overflow_label())
}

/// A sound piece with a move of the data pointer behind it.
proof fn lemma_then_move(
    a: Seq<Emit>,
    bytes: int,
    stands: Set<nat>,
    aims: Set<nat>,
    x: u32,
    step: Seq<u8>,
    bound: Seq<u8>,
    outside: Seq<u8>,
)
    requires
        sound(a, bytes, stands, aims),
        bytes >= 0,
        step.len() == 3,
        bound.len() == 3,
        outside.len() == 2,
    ensures
        sound(
            a + move_code(x, step, bound, outside),
            bytes + 23,
            stands,
            aims.insert(overflow_label()),
        ),
{
    let over = overflow_label();
    let p1 = a + code_bytes(MOV_EAX@);
    let p2 = p1 + code_bytes(le_bytes(x as nat, 4));
    let p3 = p2 + code_bytes(step);
    let p4 = p3 + near_jump(JUMP_IF_CARRY@, over);
    let p5 = p4 + code_bytes(bound);
    let p6 = p5 + near_jump(outside, over);
    lemma_le_bytes_len(x as nat, 4);
    lemma_then_bytes(a, bytes, stands, aims, MOV_EAX@);
    lemma_then_bytes(p1, bytes + 1, stands, aims, le_bytes(x as nat, 4));
    lemma_then_bytes(p2, bytes + 5, stands, aims, step);
    lemma_then_jump(p3, bytes + 8, stands, aims, JUMP_IF_CARRY@, over);
    lemma_then_bytes(p4, bytes + 14, stands, aims.insert(over), bound);
    lemma_then_jump(p5, bytes + 17, stands, aims.insert(over), outside, over);
    assert(p6 =~= a + move_code(x, step, bound, outside));
    assert(aims.insert(over).insert(over) =~= aims.insert(over));
}

/// A sound piece with a change of the current cell behind it.
proof fn lemma_then_change(
    a: Seq<Emit>,
    bytes: int,
    stands: Set<nat>,
    aims: Set<nat>,
    opcode: Seq<u8>,
    x: u8,
)
    requires
        sound(a, bytes, stands, aims),
        opcode.len() == 2,
    ensures
        sound(a + (code_bytes(opcode) + code_bytes(seq![x])), bytes + 3, stands, aims),
{
    lemma_then_bytes(a, bytes, stands, aims, opcode);
    lemma_then_bytes(a + code_bytes(opcode), bytes + 2, stands, aims, seq![x]);
    assert(a + code_bytes(opcode) + code_bytes(seq![x]) =~= a + (code_bytes(opcode) + code_bytes(
        seq![x],
    )));
}

/// A sound piece with the call of a host routine on the current cell behind it.
proof fn lemma_then_transfer(
    a: Seq<Emit>,
    bytes: int,
    stands: Set<nat>,
    aims: Set<nat>,
    hook: u64,
)
    requires
        sound(a, bytes, stands, aims),
        bytes >= 0,
    ensures
        sound(a + transfer(hook), bytes + 33, stands, aims.insert(exit_label())),
{
    let p1 = a + code_bytes(PASS_CELL@);
    let p2 = p1 + call_hook(hook);
    let p3 = p2 + code_bytes(TEST_RAX@);
    let p4 = p3 + near_jump(JUMP_IF_NOT_ZERO@, exit_label());
    let p5 = p4 + code_bytes(RESTORE_POINTER@);
    lemma_then_bytes(a, bytes, stands, aims, PASS_CELL@);
    lemma_then_call(p1, bytes + 9, stands, aims, hook);
    lemma_then_bytes(p2, bytes + 21, stands, aims, TEST_RAX@);
    lemma_then_jump(p3, bytes + 24, stands, aims, JUMP_IF_NOT_ZERO@, exit_label());
    lemma_then_bytes(p4, bytes + 30, stands, aims.insert(exit_label()), RESTORE_POINTER@);
    assert(p5 =~= a + transfer(hook));
}

/// A sound piece with the head or the tail of a loop behind it: a test of the cell, a
/// jump to one label, and another label, which does not stand in the piece yet.
proof fn lemma_then_bracket(
    a: Seq<Emit>,
    bytes: int,
    stands: Set<nat>,
    aims: Set<nat>,
    opcode: Seq<u8>,
    aim: nat,
    here: nat,
)
    requires
        sound(a, bytes, stands, aims),
        bytes >= 0,
        opcode.len() == 2,
        !stands.contains(here),
    ensures
        sound(
            a + (code_bytes(TEST_CELL@) + near_jump(opcode, aim) + label_here(here)),
            bytes + 9,
            stands.insert(here),
            aims.insert(aim),
        ),
{
    let p1 = a + code_bytes(TEST_CELL@);
    let p2 = p1 + near_jump(opcode, aim);
    let p3 = p2 + label_here(here);
    lemma_then_bytes(a, bytes, stands, aims, TEST_CELL@);
    lemma_then_jump(p1, bytes + 3, stands, aims, opcode, aim);
    lemma_then_label(p2, bytes + 9, stands, aims.insert(aim), here);
    assert(p3 =~= a + (code_bytes(TEST_CELL@) + near_jump(opcode, aim) + label_here(here)));
}

/// The labels that the code of the instruction at index `i` jumps to.
spec fn chunk_aims(code: Seq<BfIR>, i: int) -> Set<nat> {
    match code[i] {
        BfIR::AddPtr(_) | BfIR::SubPtr(_) => set![overflow_label()],
        BfIR::AddVal(_) | BfIR::SubVal(_) => Set::empty(),
        BfIR::GetByte | BfIR::PutByte => set![exit_label()],
        BfIR::Jz => set![leave_label(loops_begun(code, i))],
        BfIR::Jnz => set![entry_label(open_loops(code, i).last())],
    }
}

/// The labels that the code of the instruction at index `i` places.
spec fn chunk_stands(code: Seq<BfIR>, i: int) -> Set<nat> {
    match code[i] {
        BfIR::Jz => set![entry_label(loops_begun(code, i))],
        BfIR::Jnz => set![leave_label(open_loops(code, i).last())],
        _ => Set::empty(),
    }
}

/// A sound piece with the code of one instruction behind it, where the label that the
/// instruction places does not stand in the piece yet.
proof fn lemma_then_chunk(
    a: Seq<Emit>,
    bytes: int,
    stands: Set<nat>,
    aims: Set<nat>,
    code: Seq<BfIR>,
    hooks: Hooks,
    i: int,
)
    requires
        sound(a, bytes, stands, aims),
        bytes >= 0,
        0 <= i < code.len(),
        stands.disjoint(chunk_stands(code, i)),
    ensures
        sound(
            a + chunk(code, hooks, i),
            bytes + chunk_size(code[i]),
            stands.union(chunk_stands(code, i)),
            aims.union(chunk_aims(code, i)),
        ),
{
    let c = chunk(code, hooks, i);
    let over = overflow_label();
    let exit = exit_label();
    match code[i] {
        BfIR::AddPtr(x) => {
            lemma_then_move(
                a,
                bytes,
                stands,
                aims,
                x,
                ADD_RCX_RAX@,
                TEST_UPPER@,
                JUMP_IF_NOT_BELOW@,
            );
            assert(move_code(x, ADD_RCX_RAX@, TEST_UPPER@, JUMP_IF_NOT_BELOW@) =~= c);
            assert(aims.insert(over) =~= aims.union(set![over]));
            assert(stands.union(Set::empty()) =~= stands);
        },
        BfIR::SubPtr(x) => {
            lemma_then_move(a, bytes, stands, aims, x, SUB_RCX_RAX@, TEST_LOWER@, JUMP_IF_BELOW@);
            assert(move_code(x, SUB_RCX_RAX@, TEST_LOWER@, JUMP_IF_BELOW@) =~= c);
            assert(aims.insert(over) =~= aims.union(set![over]));
            assert(stands.union(Set::empty()) =~= stands);
        },
        BfIR::AddVal(x) => {
            lemma_then_change(a, bytes, stands, aims, ADD_CELL@, x);
            assert(aims.union(Set::empty()) =~= aims);
            assert(stands.union(Set::empty()) =~= stands);
        },
        BfIR::SubVal(x) => {
            lemma_then_change(a, bytes, stands, aims, SUB_CELL@, x);
            assert(aims.union(Set::empty()) =~= aims);
            assert(stands.union(Set::empty()) =~= stands);
        },
        BfIR::GetByte => {
            lemma_then_transfer(a, bytes, stands, aims, hooks.getbyte);
            assert(aims.insert(exit) =~= aims.union(set![exit]));
            assert(stands.union(Set::empty()) =~= stands);
        },
        BfIR::PutByte => {
            lemma_then_transfer(a, bytes, stands, aims, hooks.putbyte);
            assert(aims.insert(exit) =~= aims.union(set![exit]));
            assert(stands.union(Set::empty()) =~= stands);
        },
        BfIR::Jz => {
            let k = loops_begun(code, i);
            assert(chunk_stands(code, i).contains(entry_label(k)));
            lemma_then_bracket(
                a,
                bytes,
                stands,
                aims,
                JUMP_IF_ZERO@,
                leave_label(k),
                entry_label(k),
            );
            assert(aims.insert(leave_label(k)) =~= aims.union(set![leave_label(k)]));
            assert(stands.insert(entry_label(k)) =~= stands.union(set![entry_label(k)]));
        },
        BfIR::Jnz => {
            let k = open_loops(code, i).last();
            assert(chunk_stands(code, i).contains(leave_label(k)));
            lemma_then_bracket(
                a,
                bytes,
                stands,
                aims,
                JUMP_IF_NOT_ZERO@,
                entry_label(k),
                leave_label(k),
            );
            assert(aims.insert(entry_label(k)) =~= aims.union(set![entry_label(k)]));
            assert(stands.insert(leave_label(k)) =~= stands.union(set![leave_label(k)]));
        },
    }
}

/// The loop labels that stand in the code once `begun` loops have begun and those in
/// `open` have not ended: the entry label of every loop, and the leave label of every
/// loop that has ended.
spec fn loop_labels(begun: nat, open: Seq<nat>) -> Set<nat> {
    Set::new(
        |id: nat|
            id >= 2 && (id - 2) / 2 < begun && ((id - 2) % 2 == 1 ==> !open.contains(
                ((id - 2) / 2) as nat,
            )),
    )
}

/// The labels that exist once `begun` loops have begun.
spec fn known_labels(begun: nat) -> Set<nat> {
    Set::new(|id: nat| id < entry_label(begun))
}

/// The open loops have begun, and an inner loop has begun after the loops around it.
spec fn nested(open: Seq<nat>, begun: nat) -> bool {
    &&& forall|m: int| 0 <= m < open.len() ==> open[m] < begun
    &&& forall|a: int, b: int| 0 <= a < b < open.len() ==> open[a] < open[b]
}

/// The open loops are nested at every point of a sequence.
proof fn lemma_open_loops_nested(code: Seq<BfIR>, n: int)
    requires
        0 <= n <= code.len(),
    ensures
        nested(open_loops(code, n), loops_begun(code, n)),
    decreases n,
{
    if n > 0 {
        lemma_open_loops_nested(code, n - 1);
    }
}

/// What a stack holds after a push.
proof fn lemma_contains_push(s: Seq<nat>, x: nat, k: nat)
    ensures
        s.push(x).contains(k) <==> s.contains(k) || k == x,
{
    let t = s.push(x);
    if s.contains(k) {
        let i = choose|i: int| 0 <= i < s.len() && s[i] == k;
        assert(t[i] == k);
    }
    if k == x {
        assert(t[s.len() as int] == k);
    }
    if t.contains(k) {
        let i = choose|i: int| 0 <= i < t.len() && t[i] == k;
        if i < s.len() {
            assert(s[i] == k);
        }
    }
}

/// What a stack holds after a pop.
proof fn lemma_contains_pop(s: Seq<nat>, k: nat)
    requires
        s.len() > 0,
    ensures
        s.contains(k) <==> s.drop_last().contains(k) || k == s.last(),
{
    let t = s.drop_last();
    if t.contains(k) {
        let i = choose|i: int| 0 <= i < t.len() && t[i] == k;
        assert(s[i] == k);
    }
    if k == s.last() {
        assert(s[s.len() - 1] == k);
    }
    if s.contains(k) {
        let i = choose|i: int| 0 <= i < s.len() && s[i] == k;
        if i < t.len() {
            assert(t[i] == k);
        }
    }
}

/// The tail of a loop jumps to the labels of its own head: at the exit of a loop, the
/// innermost open loop is the one that began at the entry paired with it.
pub proof fn lemma_tail_meets_head(code: Seq<BfIR>, i: int, j: int)
    requires
        never_underflows(code),
        paired(code, i, j),
    ensures
        open_loops(code, j).len() > 0,
        open_loops(code, j).last() == loops_begun(code, i),
{
    lemma_loop_stays_open(code, i, j);
    lemma_open_loops_len(code, j);
    assert(ir_depth(code, j + 1) == ir_depth(code, j) - 1);
}

/// From behind the entry of a loop up to its exit, the loop stays on the stack of open
/// loops, at the depth of its entry.
proof fn lemma_loop_stays_open(code: Seq<BfIR>, i: int, k: int)
    requires
        never_underflows(code),
        0 <= i < k <= code.len(),
        code[i] == BfIR::Jz,
        forall|m: int| i < m <= k ==> ir_depth(code, m) > ir_depth(code, i),
    ensures
        open_loops(code, k).len() == ir_depth(code, k),
        open_loops(code, k)[ir_depth(code, i)] == loops_begun(code, i),
    decreases k - i,
{
    lemma_open_loops_len(code, k);
    lemma_open_loops_len(code, k - 1);
    if k > i + 1 {
        lemma_loop_stays_open(code, i, k - 1);
    }
}

/// The code of the first `n` instructions is a sound piece: it holds the bytes of each
/// instruction, at most 33, the loop labels of the loops that have begun or ended stand in
/// it, each once, and it jumps to labels that exist.
proof fn lemma_body_sound(code: Seq<BfIR>, hooks: Hooks, n: int)
    requires
        0 <= n <= code.len(),
        never_underflows(code),
    ensures
        ({
            let b = body(code, hooks, n);
            &&& sound(
                b,
                byte_count(b, b.len() as int),
                loop_labels(loops_begun(code, n), open_loops(code, n)),
                targets(b),
            )
            &&& byte_count(b, b.len() as int) == body_size(code, n)
            &&& 0 <= body_size(code, n) <= 33 * n
            &&& targets(b).subset_of(known_labels(loops_begun(code, n)))
        }),
    decreases n,
{
    if n <= 0 {
        let b = body(code, hooks, n);
        lemma_sound_empty();
        assert(loop_labels(0, Seq::empty()) =~= Set::empty());
        assert(targets(b) =~= Set::empty());
    } else {
        let i = n - 1;
        let a = body(code, hooks, i);
        let b = body(code, hooks, n);
        let begun = loops_begun(code, i);
        let open = open_loops(code, i);
        let stands = loop_labels(begun, open);
        let bytes = byte_count(a, a.len() as int);
        lemma_body_sound(code, hooks, i);
        lemma_open_loops_nested(code, i);
        lemma_open_loops_len(code, i);
        lemma_open_loops_len(code, n);
        assert(ir_depth(code, n) >= 0);
        let after = loop_labels(loops_begun(code, n), open_loops(code, n));
        match code[i] {
            BfIR::Jz => {
                assert(!stands.contains(entry_label(begun)));
                assert forall|id: nat| after.contains(id) <==> stands.union(
                    chunk_stands(code, i),
                ).contains(id) by {
                    if id >= 2 {
                        lemma_contains_push(open, begun, ((id - 2) / 2) as nat);
                    }
                }
            },
            BfIR::Jnz => {
                let top = open.last();
                assert(open.len() > 0);
                assert(open[open.len() - 1] == top);
                assert(open.contains(top));
                assert(!stands.contains(leave_label(top)));
                assert(!open.drop_last().contains(top)) by {
                    if open.drop_last().contains(top) {
                        let m = choose|m: int|
                            0 <= m < open.drop_last().len() && open.drop_last()[m] == top;
                        assert(open[m] < open[open.len() - 1]);
                    }
                }
                assert forall|id: nat| after.contains(id) <==> stands.union(
                    chunk_stands(code, i),
                ).contains(id) by {
                    if id >= 2 {
                        lemma_contains_pop(open, ((id - 2) / 2) as nat);
                    }
                }
            },
            _ => {
                assert(after =~= stands.union(chunk_stands(code, i)));
            },
        }
        lemma_then_chunk(a, bytes, stands, targets(a), code, hooks, i);
        assert(after =~= stands.union(chunk_stands(code, i)));
    }
}

/// The listing of a program can be linked: generating code for a well-bracketed sequence
/// of no more than `MAX_PROGRAM_LEN` instructions never makes the assembler fail.
pub proof fn lemma_listing_linkable(code: Seq<BfIR>, hooks: Hooks)
    requires
        well_bracketed(code),
        code.len() <= MAX_PROGRAM_LEN,
    ensures
        linkable(listing(code, hooks), entry_label(loops_begun(code, code.len() as int))),
        byte_count(listing(code, hooks), listing(code, hooks).len() as int) == code_size(code),
{
    let n = code.len() as int;
    let begun = loops_begun(code, n);
    let b = body(code, hooks, n);
    let bytes = byte_count(b, b.len() as int);
    let stands = loop_labels(begun, open_loops(code, n));
    let aims = targets(b);
    lemma_body_sound(code, hooks, n);
    lemma_open_loops_len(code, n);
    assert(open_loops(code, n).len() == 0);
    lemma_sound_bytes(SAVE@);
    lemma_then_bytes(code_bytes(SAVE@), 9, Set::empty(), Set::empty(), TAKE_ARGUMENTS@);
    lemma_sound_concat(prologue(), 21, Set::empty(), Set::empty(), b, bytes, stands, aims);
    assert(Set::<nat>::empty().union(stands) =~= stands);
    assert(Set::<nat>::empty().union(aims) =~= aims);
    let p0 = prologue() + b;
    let exit = exit_label();
    let over = overflow_label();
    let p1 = p0 + code_bytes(CLEAR_RAX@);
    let p2 = p1 + near_jump(JUMP@, exit);
    let p3 = p2 + label_here(over);
    let p4 = p3 + call_hook(hooks.overflow);
    let p5 = p4 + label_here(exit);
    let p6 = p5 + code_bytes(RESTORE_AND_RETURN@);
    let aims1 = aims.insert(exit);
    lemma_then_bytes(p0, 21 + bytes, stands, aims, CLEAR_RAX@);
    lemma_then_jump(p1, 24 + bytes, stands, aims, JUMP@, exit);
    lemma_then_label(p2, 29 + bytes, stands, aims1, over);
    lemma_then_call(p3, 29 + bytes, stands.insert(over), aims1, hooks.overflow);
    lemma_then_label(p4, 41 + bytes, stands.insert(over), aims1, exit);
    lemma_then_bytes(p5, 41 + bytes, stands.insert(over).insert(exit), aims1, RESTORE_AND_RETURN@);
    let all = listing(code, hooks);
    assert(p6 =~= all);
    assert(sound(all, 51 + bytes, stands.insert(over).insert(exit), aims1));
    assert forall|id: nat| placed(all).contains(id) implies id < entry_label(begun) by {
        assert(stands.insert(over).insert(exit).contains(id));
    }
    assert forall|id: nat| targets(all).contains(id) implies placed(all).contains(id) by {
        assert(aims1.contains(id));
        if id != exit {
            assert(aims.contains(id));
            assert(known_labels(begun).contains(id));
            if id >= 2 {
                assert(!open_loops(code, n).contains(((id - 2) / 2) as nat));
                assert(stands.contains(id));
            }
        }
        assert(stands.insert(over).insert(exit).contains(id));
    }
}

} // verus!
