use bfvm::bfir::{compile, fold, join, BfIR, CompileError, CompileErrorKind};

fn fault(line: u32, col: u32, kind: CompileErrorKind) -> CompileError {
    CompileError { line, col, kind }
}

#[test]
fn compiles_a_loop_around_read_and_write() {
    assert_eq!(
        compile("+[,.]").unwrap(),
        vec![BfIR::AddVal(1), BfIR::Jz, BfIR::GetByte, BfIR::PutByte, BfIR::Jnz]
    );
}

#[test]
fn reports_an_unclosed_bracket() {
    assert_eq!(
        compile("[").unwrap_err(),
        fault(1, 1, CompileErrorKind::UnclosedLeftBracket)
    );
}

#[test]
fn reports_an_unexpected_bracket() {
    assert_eq!(
        compile("]").unwrap_err(),
        fault(1, 1, CompileErrorKind::UnexpectedRightBracket)
    );
}

#[test]
fn folds_five_increments_into_one() {
    assert_eq!(
        compile("[+++++]").unwrap(),
        vec![BfIR::Jz, BfIR::AddVal(5), BfIR::Jnz]
    );
}

#[test]
fn folds_runs_of_one_direction_only() {
    assert_eq!(
        compile(">>><<").unwrap(),
        vec![BfIR::AddPtr(3), BfIR::SubPtr(2)]
    );
}

#[test]
fn reports_the_innermost_unclosed_bracket() {
    assert_eq!(
        compile("[[").unwrap_err(),
        fault(1, 2, CompileErrorKind::UnclosedLeftBracket)
    );
}

#[test]
fn reports_the_innermost_bracket_that_is_still_open() {
    assert_eq!(
        compile("[[][").unwrap_err(),
        fault(1, 4, CompileErrorKind::UnclosedLeftBracket)
    );
    assert_eq!(
        compile("[[]").unwrap_err(),
        fault(1, 1, CompileErrorKind::UnclosedLeftBracket)
    );
}

#[test]
fn an_unexpected_bracket_wins_over_an_unclosed_one() {
    assert_eq!(
        compile("[]][").unwrap_err(),
        fault(1, 3, CompileErrorKind::UnexpectedRightBracket)
    );
    assert_eq!(
        compile("[[]]]]").unwrap_err(),
        fault(1, 5, CompileErrorKind::UnexpectedRightBracket)
    );
}

#[test]
fn counts_lines_and_columns_from_one() {
    assert_eq!(
        compile("+\n+\n  ]").unwrap_err(),
        fault(3, 3, CompileErrorKind::UnexpectedRightBracket)
    );
    assert_eq!(
        compile("\n\n[").unwrap_err(),
        fault(3, 1, CompileErrorKind::UnclosedLeftBracket)
    );
    assert_eq!(
        compile("ab\ncd[\n+").unwrap_err(),
        fault(2, 3, CompileErrorKind::UnclosedLeftBracket)
    );
}

#[test]
fn counts_columns_in_characters() {
    assert_eq!(
        compile("\u{e9}\u{4e2d}]").unwrap_err(),
        fault(1, 3, CompileErrorKind::UnexpectedRightBracket)
    );
}

#[test]
fn ignores_every_other_character() {
    assert_eq!(compile("").unwrap(), vec![]);
    assert_eq!(compile("hello, world").unwrap(), vec![BfIR::GetByte]);
    assert_eq!(
        compile("a+b+c\n-d").unwrap(),
        vec![BfIR::AddVal(2), BfIR::SubVal(1)]
    );
}

#[test]
fn maps_each_of_the_eight_characters() {
    assert_eq!(
        compile("+,-.>[<]").unwrap(),
        vec![
            BfIR::AddVal(1),
            BfIR::GetByte,
            BfIR::SubVal(1),
            BfIR::PutByte,
            BfIR::AddPtr(1),
            BfIR::Jz,
            BfIR::SubPtr(1),
            BfIR::Jnz,
        ]
    );
}

#[test]
fn never_folds_reads_writes_or_brackets() {
    assert_eq!(
        compile(",,..[[]]").unwrap(),
        vec![
            BfIR::GetByte,
            BfIR::GetByte,
            BfIR::PutByte,
            BfIR::PutByte,
            BfIR::Jz,
            BfIR::Jz,
            BfIR::Jnz,
            BfIR::Jnz,
        ]
    );
}

#[test]
fn a_comment_does_not_end_a_run() {
    assert_eq!(compile("+ + \n +").unwrap(), vec![BfIR::AddVal(3)]);
}

#[test]
fn opposite_directions_do_not_cancel() {
    assert_eq!(
        compile("+-+-").unwrap(),
        vec![
            BfIR::AddVal(1),
            BfIR::SubVal(1),
            BfIR::AddVal(1),
            BfIR::SubVal(1),
        ]
    );
}

#[test]
fn value_deltas_wrap_at_256() {
    let src = "+".repeat(256);
    assert_eq!(compile(&src).unwrap(), vec![BfIR::AddVal(0)]);
    let src = "-".repeat(259);
    assert_eq!(compile(&src).unwrap(), vec![BfIR::SubVal(3)]);
}

#[test]
fn pointer_deltas_wrap_at_the_width_of_the_delta() {
    let mut code = vec![BfIR::AddPtr(u32::MAX), BfIR::AddPtr(2), BfIR::SubPtr(u32::MAX), BfIR::SubPtr(1)];
    fold(&mut code);
    assert_eq!(code, vec![BfIR::AddPtr(1), BfIR::SubPtr(0)]);
}

#[test]
fn fold_merges_every_run() {
    let mut code = vec![
        BfIR::AddVal(200),
        BfIR::AddVal(100),
        BfIR::SubVal(1),
        BfIR::SubVal(2),
        BfIR::GetByte,
        BfIR::AddPtr(7),
        BfIR::AddPtr(8),
        BfIR::AddPtr(9),
        BfIR::Jz,
        BfIR::SubPtr(4),
        BfIR::Jnz,
        BfIR::SubPtr(5),
        BfIR::SubPtr(6),
    ];
    fold(&mut code);
    assert_eq!(
        code,
        vec![
            BfIR::AddVal(44),
            BfIR::SubVal(3),
            BfIR::GetByte,
            BfIR::AddPtr(24),
            BfIR::Jz,
            BfIR::SubPtr(4),
            BfIR::Jnz,
            BfIR::SubPtr(11),
        ]
    );
}

#[test]
fn fold_of_nothing_is_nothing() {
    let mut code: Vec<BfIR> = vec![];
    fold(&mut code);
    assert_eq!(code, vec![]);
}

#[test]
fn folding_twice_is_folding_once() {
    let mut once = vec![
        BfIR::AddVal(1),
        BfIR::AddVal(255),
        BfIR::AddVal(0),
        BfIR::PutByte,
        BfIR::AddVal(3),
        BfIR::AddPtr(1),
        BfIR::AddPtr(1),
        BfIR::SubPtr(1),
        BfIR::Jz,
        BfIR::Jz,
        BfIR::SubVal(9),
        BfIR::SubVal(9),
    ];
    fold(&mut once);
    let mut twice = once.clone();
    fold(&mut twice);
    assert_eq!(twice, once);
    assert_eq!(
        once,
        vec![
            BfIR::AddVal(0),
            BfIR::PutByte,
            BfIR::AddVal(3),
            BfIR::AddPtr(2),
            BfIR::SubPtr(1),
            BfIR::Jz,
            BfIR::Jz,
            BfIR::SubVal(18),
        ]
    );
}

#[test]
fn join_adds_the_deltas_of_like_instructions() {
    assert_eq!(join(BfIR::AddVal(250), BfIR::AddVal(10)), Some(BfIR::AddVal(4)));
    assert_eq!(join(BfIR::SubVal(1), BfIR::SubVal(2)), Some(BfIR::SubVal(3)));
    assert_eq!(join(BfIR::AddPtr(5), BfIR::AddPtr(6)), Some(BfIR::AddPtr(11)));
    assert_eq!(
        join(BfIR::SubPtr(0x8000_0000), BfIR::SubPtr(0x8000_0001)),
        Some(BfIR::SubPtr(1))
    );
}

#[test]
fn join_refuses_unlike_instructions() {
    assert_eq!(join(BfIR::AddVal(1), BfIR::SubVal(1)), None);
    assert_eq!(join(BfIR::AddPtr(1), BfIR::SubPtr(1)), None);
    assert_eq!(join(BfIR::AddVal(1), BfIR::AddPtr(1)), None);
    assert_eq!(join(BfIR::GetByte, BfIR::GetByte), None);
    assert_eq!(join(BfIR::PutByte, BfIR::PutByte), None);
    assert_eq!(join(BfIR::Jz, BfIR::Jz), None);
    assert_eq!(join(BfIR::Jnz, BfIR::Jnz), None);
}
