use vstd::prelude::*;

verus! {

/// One operation of the tape machine.
#[derive(Debug, Clone, Copy, PartialEq, Eq, Structural)]
pub enum BfIR {
    /// Add to the current cell, modulo 256.
    AddVal(u8),
    /// Subtract from the current cell, modulo 256.
    SubVal(u8),
    /// Move the data pointer forward by a number of cells.
    AddPtr(u32),
    /// Move the data pointer backward by a number of cells.
    SubPtr(u32),
    /// Read one byte into the current cell.
    GetByte,
    /// Write the current cell as one byte.
    PutByte,
    /// Loop entry: skip the body when the current cell is zero.
    Jz,
    /// Loop exit: repeat the body when the current cell is not zero.
    Jnz,
}

/// Why a source text is not a program.
#[derive(Debug, Clone, Copy, PartialEq, Eq, Structural)]
pub enum CompileErrorKind {
    /// A `[` that no `]` closes.
    UnclosedLeftBracket,
    /// A `]` with no open `[` before it.
    UnexpectedRightBracket,
}

/// A bracket fault and the place of the offending character, both counted from 1.
#[derive(Debug, Clone, Copy, PartialEq, Eq, Structural)]
pub struct CompileError {
    pub line: u32,
    pub col: u32,
    pub kind: CompileErrorKind,
}

/// The instruction that a character stands for; every other character is a comment.
pub open spec fn instr_of(c: char) -> Option<BfIR> {
    if c == '+' {
        Some(BfIR::AddVal(1))
    } else if c == '-' {
        Some(BfIR::SubVal(1))
    } else if c == '>' {
        Some(BfIR::AddPtr(1))
    } else if c == '<' {
        Some(BfIR::SubPtr(1))
    } else if c == ',' {
        Some(BfIR::GetByte)
    } else if c == '.' {
        Some(BfIR::PutByte)
    } else if c == '[' {
        Some(BfIR::Jz)
    } else if c == ']' {
        Some(BfIR::Jnz)
    } else {
        None
    }
}

/// The instructions of a text, one per significant character, in order.
pub open spec fn lex(s: Seq<char>) -> Seq<BfIR>
    decreases s.len(),
{
    if s.len() == 0 {
        Seq::empty()
    } else {
        match instr_of(s.last()) {
            Some(i) => lex(s.drop_last()).push(i),
            None => lex(s.drop_last()),
        }
    }
}

/// What a character adds to the nesting depth.
pub open spec fn bracket_weight(c: char) -> int {
    if c == '[' {
        1
    } else if c == ']' {
        -1
    } else {
        0
    }
}

/// Opening minus closing brackets among the first `k` characters.
pub open spec fn depth(s: Seq<char>, k: int) -> int
    decreases k,
{
    if k <= 0 {
        0
    } else {
        depth(s, k - 1) + bracket_weight(s[k - 1])
    }
}

/// The line of the character at index `i`: one more than the newlines before it.
pub open spec fn line_of(s: Seq<char>, i: int) -> int
    decreases i,
{
    if i <= 0 {
        1
    } else if s[i - 1] == '\n' {
        line_of(s, i - 1) + 1
    } else {
        line_of(s, i - 1)
    }
}

/// The column of the character at index `i`: its distance from the start of its line,
/// the first character of a line being in column 1.
pub open spec fn col_of(s: Seq<char>, i: int) -> int
    decreases i,
{
    if i <= 0 || s[i - 1] == '\n' {
        1
    } else {
        col_of(s, i - 1) + 1
    }
}

/// No prefix of the text closes more brackets than it has opened.
pub open spec fn never_negative(s: Seq<char>) -> bool {
    forall|k: int| 0 <= k <= s.len() ==> depth(s, k) >= 0
}

/// The text is a program: every bracket has its partner.
pub open spec fn balanced(s: Seq<char>) -> bool {
    never_negative(s) && depth(s, s.len() as int) == 0
}

/// Index `i` holds the first `]` that has no open `[` before it.
pub open spec fn is_first_stray(s: Seq<char>, i: int) -> bool {
    &&& 0 <= i < s.len()
    &&& depth(s, i + 1) < 0
    &&& forall|k: int| 0 <= k <= i ==> depth(s, k) >= 0
}

/// Index `j` holds the `[` that was opened last among those still open at the end.
pub open spec fn is_innermost_open(s: Seq<char>, j: int) -> bool {
    &&& 0 <= j < s.len()
    &&& s[j] == '['
    &&& depth(s, j) + 1 == depth(s, s.len() as int)
    &&& forall|k: int| j < k <= s.len() ==> depth(s, k) > depth(s, j)
}

/// The fault of kind `kind` is reported for the character at index `i`.
///
/// A stray `]` stops the scan, so it wins over any `[` left open; of several `[` left
/// open only the innermost is reported.
pub open spec fn fault_at(s: Seq<char>, kind: CompileErrorKind, i: int) -> bool {
    match kind {
        CompileErrorKind::UnexpectedRightBracket => is_first_stray(s, i),
        CompileErrorKind::UnclosedLeftBracket => never_negative(s) && is_innermost_open(s, i),
    }
}

/// What an instruction adds to the nesting depth.
pub open spec fn loop_weight(i: BfIR) -> int {
    match i {
        BfIR::Jz => 1,
        BfIR::Jnz => -1,
        _ => 0,
    }
}

/// Loop entries minus loop exits among the first `k` instructions.
pub open spec fn ir_depth(code: Seq<BfIR>, k: int) -> int
    decreases k,
{
    if k <= 0 {
        0
    } else {
        ir_depth(code, k - 1) + loop_weight(code[k - 1])
    }
}

/// No prefix of the sequence leaves more loops than it has entered.
pub open spec fn never_underflows(code: Seq<BfIR>) -> bool {
    forall|k: int| 0 <= k <= code.len() ==> ir_depth(code, k) >= 0
}

/// Every loop entry has its exit, and every exit its entry.
pub open spec fn well_bracketed(code: Seq<BfIR>) -> bool {
    never_underflows(code) && ir_depth(code, code.len() as int) == 0
}

/// Index `i` holds the entry of a loop and index `j` its exit: the depth behind the exit
/// is the depth before the entry, and between the two it is higher.
pub open spec fn paired(code: Seq<BfIR>, i: int, j: int) -> bool {
    &&& 0 <= i < j < code.len()
    &&& code[i] == BfIR::Jz
    &&& code[j] == BfIR::Jnz
    &&& ir_depth(code, j + 1) == ir_depth(code, i)
    &&& forall|k: int| i < k <= j ==> ir_depth(code, k) > ir_depth(code, i)
}

/// A number for each variant.
pub open spec fn tag(i: BfIR) -> int {
    match i {
        BfIR::AddVal(_) => 0,
        BfIR::SubVal(_) => 1,
        BfIR::AddPtr(_) => 2,
        BfIR::SubPtr(_) => 3,
        BfIR::GetByte => 4,
        BfIR::PutByte => 5,
        BfIR::Jz => 6,
        BfIR::Jnz => 7,
    }
}

/// Two instructions that a run may hold side by side: the same variant, and one that
/// carries a delta.
pub open spec fn same_run(a: BfIR, b: BfIR) -> bool {
    tag(a) == tag(b) && tag(a) < 4
}

/// The one instruction that does what `a` and then `b` do, for two of the same run:
/// the deltas add up, and wrap at the width of the delta.
pub open spec fn merge(a: BfIR, b: BfIR) -> BfIR {
    match (a, b) {
        (BfIR::AddVal(x), BfIR::AddVal(y)) => BfIR::AddVal(((x + y) % 0x100) as u8),
        (BfIR::SubVal(x), BfIR::SubVal(y)) => BfIR::SubVal(((x + y) % 0x100) as u8),
        (BfIR::AddPtr(x), BfIR::AddPtr(y)) => BfIR::AddPtr(((x + y) % 0x1_0000_0000) as u32),
        (BfIR::SubPtr(x), BfIR::SubPtr(y)) => BfIR::SubPtr(((x + y) % 0x1_0000_0000) as u32),
        _ => b,
    }
}

/// A folded sequence with one more instruction behind it: the instruction joins the last
/// run where it can, and starts a new one where it cannot.
pub open spec fn absorb(acc: Seq<BfIR>, x: BfIR) -> Seq<BfIR> {
    if acc.len() > 0 && same_run(acc.last(), x) {
        acc.drop_last().push(merge(acc.last(), x))
    } else {
        acc.push(x)
    }
}

/// The sequence with every run of like instructions merged into one.
pub open spec fn folded(s: Seq<BfIR>) -> Seq<BfIR>
    decreases s.len(),
{
    if s.len() == 0 {
        s
    } else {
        absorb(folded(s.drop_last()), s.last())
    }
}

/// No two neighbours belong to one run: nothing is left to fold.
pub open spec fn compact(s: Seq<BfIR>) -> bool {
    forall|k: int| 0 <= k < s.len() - 1 ==> !same_run(#[trigger] s[k], s[k + 1])
}

/// Folding a prefix: one step of the definition, by index.
proof fn lemma_folded_step(s: Seq<BfIR>, j: int)
    requires
        0 < j <= s.len(),
    ensures
        folded(s.take(j)) == absorb(folded(s.take(j - 1)), s[j - 1]),
{
    assert(s.take(j).drop_last() =~= s.take(j - 1));
}

/// The last instruction of a folded sequence is of the variant of the last instruction
/// folded.
proof fn lemma_folded_last(s: Seq<BfIR>)
    requires
        s.len() > 0,
    ensures
        folded(s).len() > 0,
        tag(folded(s).last()) == tag(s.last()),
{
}

/// Folding never lengthens a sequence.
pub proof fn lemma_folded_len(s: Seq<BfIR>)
    ensures
        folded(s).len() <= s.len(),
        s.len() > 0 ==> folded(s).len() > 0,
    decreases s.len(),
{
    if s.len() > 0 {
        lemma_folded_len(s.drop_last());
    }
}

/// A folded sequence holds no two neighbours of one run: the runs that were merged
/// were maximal.
pub proof fn lemma_folded_compact(s: Seq<BfIR>)
    ensures
        compact(folded(s)),
    decreases s.len(),
{
    if s.len() > 0 {
        let front = folded(s.drop_last());
        lemma_folded_compact(s.drop_last());
        if front.len() > 0 && same_run(front.last(), s.last()) {
            let out = front.drop_last().push(merge(front.last(), s.last()));
            assert forall|k: int| 0 <= k < out.len() - 1 implies !same_run(
                #[trigger] out[k],
                out[k + 1],
            ) by {
                assert(out[k] == front[k]);
                assert(tag(out[k + 1]) == tag(front[k + 1]));
            }
        } else {
            let out = front.push(s.last());
            assert forall|k: int| 0 <= k < out.len() - 1 implies !same_run(
                #[trigger] out[k],
                out[k + 1],
            ) by {
                if k < front.len() - 1 {
                    assert(out[k] == front[k]);
                    assert(out[k + 1] == front[k + 1]);
                }
            }
        }
    }
}

/// Folding leaves a sequence with nothing to fold as it is.
pub proof fn lemma_compact_is_fixed(s: Seq<BfIR>)
    requires
        compact(s),
    ensures
        folded(s) == s,
    decreases s.len(),
{
    if s.len() > 0 {
        let front = s.drop_last();
        assert forall|k: int| 0 <= k < front.len() - 1 implies !same_run(
            #[trigger] front[k],
            front[k + 1],
        ) by {
            assert(front[k] == s[k]);
            assert(front[k + 1] == s[k + 1]);
        }
        lemma_compact_is_fixed(front);
        if front.len() > 0 {
            assert(front.last() == s[s.len() - 2]);
            assert(!same_run(s[s.len() - 2], s[s.len() - 2 + 1]));
        }
        assert(front.push(s.last()) =~= s);
    }
}

/// The entry of a loop has one exit.
pub proof fn lemma_exit_unique(code: Seq<BfIR>, i: int, a: int, b: int)
    requires
        paired(code, i, a),
        paired(code, i, b),
    ensures
        a == b,
{
    if a < b {
        assert(ir_depth(code, a + 1) > ir_depth(code, i));
    }
    if b < a {
        assert(ir_depth(code, b + 1) > ir_depth(code, i));
    }
}

/// The exit of a loop has one entry.
pub proof fn lemma_entry_unique(code: Seq<BfIR>, a: int, b: int, j: int)
    requires
        paired(code, a, j),
        paired(code, b, j),
    ensures
        a == b,
{
    if a < b {
        assert(ir_depth(code, b) > ir_depth(code, a));
        assert(ir_depth(code, b + 1) == ir_depth(code, b) + 1);
    }
    if b < a {
        assert(ir_depth(code, a) > ir_depth(code, b));
        assert(ir_depth(code, a + 1) == ir_depth(code, a) + 1);
    }
}

/// The depth after `k` instructions depends on those `k` instructions only.
proof fn lemma_ir_depth_prefix(a: Seq<BfIR>, b: Seq<BfIR>, k: int)
    requires
        0 <= k <= a.len(),
        k <= b.len(),
        forall|m: int| 0 <= m < k ==> a[m] == b[m],
    ensures
        ir_depth(a, k) == ir_depth(b, k),
    decreases k,
{
    if k > 0 {
        lemma_ir_depth_prefix(a, b, k - 1);
    }
}

/// Folding keeps the loop structure: at its end the depth is what it was, and where no
/// prefix of the sequence went below zero, none of the folded one does.
pub proof fn lemma_folded_depth(s: Seq<BfIR>)
    ensures
        ir_depth(folded(s), folded(s).len() as int) == ir_depth(s, s.len() as int),
        never_underflows(s) ==> never_underflows(folded(s)),
    decreases s.len(),
{
    if s.len() > 0 {
        let t = s.drop_last();
        let x = s.last();
        let front = folded(t);
        let out = folded(s);
        lemma_folded_depth(t);
        lemma_ir_depth_prefix(s, t, t.len() as int);
        if never_underflows(s) {
            assert forall|k: int| 0 <= k <= t.len() implies ir_depth(t, k) >= 0 by {
                lemma_ir_depth_prefix(s, t, k);
            }
        }
        if front.len() > 0 && same_run(front.last(), x) {
            lemma_ir_depth_prefix(out, front, front.len() - 1);
            assert(loop_weight(out.last()) == 0);
            assert(loop_weight(front.last()) == 0);
            assert forall|k: int| 0 <= k <= out.len() && never_underflows(front) implies ir_depth(
                out,
                k,
            ) >= 0 by {
                if k < out.len() {
                    lemma_ir_depth_prefix(out, front, k);
                }
            }
        } else {
            lemma_ir_depth_prefix(out, front, front.len() as int);
            assert(out.last() == x);
            assert(ir_depth(out, out.len() as int) == ir_depth(s, s.len() as int));
            assert forall|k: int| 0 <= k <= out.len() && never_underflows(s) implies ir_depth(
                out,
                k,
            ) >= 0 by {
                if k < out.len() {
                    lemma_ir_depth_prefix(out, front, k);
                } else {
                    assert(ir_depth(s, s.len() as int) >= 0);
                }
            }
        }
    }
}

/// Folding a well-bracketed sequence gives a well-bracketed sequence.
pub proof fn lemma_folded_well_bracketed(s: Seq<BfIR>)
    requires
        well_bracketed(s),
    ensures
        well_bracketed(folded(s)),
{
    lemma_folded_depth(s);
}

/// Folding is idempotent: a second pass over a folded sequence changes nothing.
pub proof fn lemma_fold_idempotent(s: Seq<BfIR>)
    ensures
        folded(folded(s)) == folded(s),
{
    lemma_folded_compact(s);
    lemma_compact_is_fixed(folded(s));
}

/// Joins two instructions of one run into one.
pub fn join(a: BfIR, b: BfIR) -> (r: Option<BfIR>)
    ensures
        r == if same_run(a, b) {
            Some(merge(a, b))
        } else {
            None
        },
{
    match (a, b) {
        (BfIR::AddVal(x), BfIR::AddVal(y)) => Some(BfIR::AddVal(x.wrapping_add(y))),
        (BfIR::SubVal(x), BfIR::SubVal(y)) => Some(BfIR::SubVal(x.wrapping_add(y))),
        (BfIR::AddPtr(x), BfIR::AddPtr(y)) => Some(BfIR::AddPtr(x.wrapping_add(y))),
        (BfIR::SubPtr(x), BfIR::SubPtr(y)) => Some(BfIR::SubPtr(x.wrapping_add(y))),
        _ => None,
    }
}

/// Merges every run of like pointer or value instructions into one instruction that
/// carries the sum of the deltas, in place. Reads, writes and loop brackets stay as
/// they are and end a run.
pub fn fold(code: &mut Vec<BfIR>)
    ensures
        final(code)@ == folded(old(code)@),
        final(code)@.len() <= old(code)@.len(),
        compact(final(code)@),
{
    let ghost orig = code@;
    let n: usize = code.len();
    let mut i: usize = 0;
    let mut pc: usize = 0;
    while i < n
        invariant
            code.len() == n,
            orig.len() == n,
            pc <= i <= n,
            code@.take(pc as int) == folded(orig.take(i as int)),
            forall|k: int| i <= k < n ==> code@[k] == orig[k],
            0 < i < n ==> !same_run(orig[i - 1], orig[i as int]),
        decreases n - i,
    {
        let ghost done = code@.take(pc as int);
        let mut acc: BfIR = code[i];
        let mut j: usize = i + 1;
        let mut open: bool = true;
        proof {
            lemma_folded_step(orig, i + 1);
            if i > 0 {
                lemma_folded_last(orig.take(i as int));
            }
        }
        while open && j < n
            invariant
                code.len() == n,
                orig.len() == n,
                pc <= i < j <= n,
                done == code@.take(pc as int),
                forall|k: int| i <= k < n ==> code@[k] == orig[k],
                folded(orig.take(j as int)) == done.push(acc),
                tag(acc) == tag(orig[j - 1]),
                !open ==> j < n && !same_run(orig[j - 1], orig[j as int]),
            decreases n - j + (if open { 1int } else { 0int }),
        {
            match join(acc, code[j]) {
                Some(m) => {
                    proof {
                        lemma_folded_step(orig, j + 1);
                        assert(done.push(acc).drop_last() =~= done);
                    }
                    acc = m;
                    j = j + 1;
                },
                None => {
                    open = false;
                },
            }
        }
        code.set(pc, acc);
        proof {
            assert(code@.take(pc + 1) =~= done.push(acc));
        }
        pc = pc + 1;
        i = j;
    }
    proof {
        assert(orig.take(n as int) =~= orig);
    }
    code.truncate(pc);
    proof {
        assert(code@ =~= folded(orig));
        lemma_folded_compact(orig);
    }
}

/// A text has at most one fault: its kind and its place are determined by the text.
pub proof fn lemma_fault_unique(
    s: Seq<char>,
    kind_a: CompileErrorKind,
    a: int,
    kind_b: CompileErrorKind,
    b: int,
)
    requires
        fault_at(s, kind_a, a),
        fault_at(s, kind_b, b),
    ensures
        kind_a == kind_b,
        a == b,
{
    match (kind_a, kind_b) {
        (CompileErrorKind::UnexpectedRightBracket, CompileErrorKind::UnexpectedRightBracket) => {
            if a < b {
                assert(depth(s, a + 1) >= 0);
            }
            if b < a {
                assert(depth(s, b + 1) >= 0);
            }
        },
        (CompileErrorKind::UnexpectedRightBracket, CompileErrorKind::UnclosedLeftBracket) => {
            assert(depth(s, a + 1) >= 0);
        },
        (CompileErrorKind::UnclosedLeftBracket, CompileErrorKind::UnexpectedRightBracket) => {
            assert(depth(s, b + 1) >= 0);
        },
        (CompileErrorKind::UnclosedLeftBracket, CompileErrorKind::UnclosedLeftBracket) => {
            if a < b {
                assert(depth(s, b) > depth(s, a));
            }
            if b < a {
                assert(depth(s, a) > depth(s, b));
            }
        },
    }
}

/// A text with a fault is no program.
pub proof fn lemma_fault_excludes_balance(s: Seq<char>, kind: CompileErrorKind, i: int)
    requires
        fault_at(s, kind, i),
    ensures
        !balanced(s),
{
    match kind {
        CompileErrorKind::UnexpectedRightBracket => {
            assert(depth(s, i + 1) < 0);
        },
        CompileErrorKind::UnclosedLeftBracket => {
            assert(depth(s, i) >= 0);
        },
    }
}

/// Lexing a prefix: one step of the definition, by index.
proof fn lemma_lex_step(s: Seq<char>, n: int)
    requires
        0 < n <= s.len(),
    ensures
        lex(s.take(n)) == match instr_of(s[n - 1]) {
            Some(i) => lex(s.take(n - 1)).push(i),
            None => lex(s.take(n - 1)),
        },
{
    assert(s.take(n).drop_last() =~= s.take(n - 1));
}

/// A text has at least as many characters as instructions.
pub proof fn lemma_lex_len(s: Seq<char>)
    ensures
        lex(s).len() <= s.len(),
    decreases s.len(),
{
    if s.len() > 0 {
        lemma_lex_len(s.drop_last());
    }
}

/// A line or column number is at most one more than the index it belongs to.
proof fn lemma_position_bounds(s: Seq<char>, i: int)
    requires
        0 <= i,
    ensures
        1 <= line_of(s, i) <= i + 1,
        1 <= col_of(s, i) <= i + 1,
    decreases i,
{
    if i > 0 {
        lemma_position_bounds(s, i - 1);
    }
}

/// Turns a source text into its folded instruction sequence.
///
/// The text is a program exactly when its brackets are balanced. A `]` with nothing
/// open before it is reported where it stands, and nothing behind it is looked at;
/// brackets left open at the end are reported by the innermost of them alone.
pub fn compile(src: &str) -> (r: Result<Vec<BfIR>, CompileError>)
    requires
        src@.len() < u32::MAX,
    ensures
        r is Ok <==> balanced(src@),
        r matches Ok(code) ==> code@ == folded(lex(src@)) && well_bracketed(code@) && compact(
            code@,
        ),
        r matches Err(e) ==> exists|i: int|
            fault_at(src@, e.kind, i) && e.line == line_of(src@, i) && e.col == col_of(src@, i),
{
    let ghost s = src@;
    let mut code: Vec<BfIR> = Vec::new();
    let mut stk: Vec<(usize, u32, u32)> = Vec::new();
    let ghost mut opens: Seq<int> = Seq::empty();
    let mut line: u32 = 1;
    let mut col: u32 = 0;
    proof {
        assert(s.take(0) =~= Seq::<char>::empty());
    }
    for ch in it: src.chars()
        invariant
            it.seq() == s,
            s == src@,
            s.len() < u32::MAX,
            code@ == lex(s.take(it.index() as int)),
            line == line_of(s, it.index() as int),
            col + 1 == col_of(s, it.index() as int),
            forall|k: int| 0 <= k <= it.index() ==> depth(s, k) >= 0,
            stk.len() == depth(s, it.index() as int),
            opens.len() == stk.len(),
            forall|m: int|
                0 <= m < opens.len() ==> {
                    &&& 0 <= #[trigger] opens[m] < it.index()
                    &&& s[opens[m]] == '['
                    &&& depth(s, opens[m]) == m
                    &&& stk[m].1 == line_of(s, opens[m])
                    &&& stk[m].2 == col_of(s, opens[m])
                    &&& stk[m].0 < code.len()
                    &&& code@[stk[m].0 as int] == BfIR::Jz
                    &&& forall|k: int| opens[m] < k <= it.index() ==> depth(s, k) > m
                },
            never_underflows(code@),
            ir_depth(code@, code.len() as int) == depth(s, it.index() as int),
    {
        let ghost n = it.index() as int;
        let ghost before = code@;
        proof {
            lemma_lex_step(s, n + 1);
            lemma_position_bounds(s, n);
            lemma_position_bounds(s, n + 1);
            assert(depth(s, n + 1) == depth(s, n) + bracket_weight(s[n]));
        }
        col = col + 1;
        match ch {
            '\n' => {
                line = line + 1;
                col = 0;
            },
            '+' => code.push(BfIR::AddVal(1)),
            '-' => code.push(BfIR::SubVal(1)),
            '>' => code.push(BfIR::AddPtr(1)),
            '<' => code.push(BfIR::SubPtr(1)),
            ',' => code.push(BfIR::GetByte),
            '.' => code.push(BfIR::PutByte),
            '[' => {
                let pos: usize = code.len();
                stk.push((pos, line, col));
                code.push(BfIR::Jz);
                proof {
                    opens = opens.push(n);
                }
            },
            ']' => {
                match stk.pop() {
                    Some(_) => {},
                    None => {
                        proof {
                            assert(is_first_stray(s, n));
                            assert(!never_negative(s)) by {
                                assert(depth(s, n + 1) < 0);
                            }
                            assert(fault_at(s, CompileErrorKind::UnexpectedRightBracket, n));
                        }
                        return Err(
                            CompileError {
                                line,
                                col,
                                kind: CompileErrorKind::UnexpectedRightBracket,
                            },
                        );
                    },
                }
                code.push(BfIR::Jnz);
                proof {
                    opens = opens.drop_last();
                }
            },
            _ => {},
        }
        proof {
            if code@.len() > before.len() {
                assert forall|k: int| 0 <= k <= code@.len() implies ir_depth(code@, k) >= 0 by {
                    if k < code@.len() {
                        lemma_ir_depth_prefix(code@, before, k);
                    } else {
                        lemma_ir_depth_prefix(code@, before, k - 1);
                    }
                }
                lemma_ir_depth_prefix(code@, before, before.len() as int);
            }
        }
    }
    let ghost len = s.len() as int;
    proof {
        assert(s.take(len) =~= s);
    }
    match stk.pop() {
        Some((_, open_line, open_col)) => {
            proof {
                let j = opens[opens.len() - 1];
                assert(is_innermost_open(s, j));
                assert(fault_at(s, CompileErrorKind::UnclosedLeftBracket, j));
            }
            return Err(
                CompileError {
                    line: open_line,
                    col: open_col,
                    kind: CompileErrorKind::UnclosedLeftBracket,
                },
            );
        },
        None => {},
    }
    proof {
        lemma_folded_well_bracketed(code@);
    }
    fold(&mut code);
    Ok(code)
}

} // verus!
