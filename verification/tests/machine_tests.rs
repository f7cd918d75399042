use bfvm::bfir::{compile, BfIR};
use bfvm::machine::{cell_after_read, jump_table, Effect, Machine, Report};

struct Run {
    end: Effect,
    output: Vec<u8>,
    machine: Machine,
}

fn run_ir(code: Vec<BfIR>, size: usize, input: &[u8]) -> Run {
    let mut machine = Machine::new(code, size);
    let report = machine.run(input, 1_000_000);
    Run {
        end: report.end,
        output: report.output,
        machine,
    }
}

fn run(src: &str, input: &[u8]) -> Run {
    run_ir(compile(src).unwrap(), 64, input)
}

#[test]
fn three_increments_and_a_write_give_one_byte() {
    let r = run("+++.", &[]);
    assert_eq!(r.end, Effect::Done);
    assert_eq!(r.output, vec![3]);
}

#[test]
fn a_read_at_the_end_of_the_input_changes_nothing() {
    let r = run(",", &[]);
    assert_eq!(r.end, Effect::Done);
    assert_eq!(r.machine.cells[0], 0);
    let r = run("+++++,.", &[]);
    assert_eq!(r.end, Effect::Done);
    assert_eq!(r.machine.cells[0], 5);
    assert_eq!(r.output, vec![5]);
}

#[test]
fn a_move_below_the_arena_is_an_overflow() {
    let r = run("<", &[]);
    assert_eq!(r.end, Effect::Overflow);
    assert_eq!(r.machine.ptr, 0);
    let r = run_ir(vec![BfIR::SubPtr(u32::MAX)], 64, &[]);
    assert_eq!(r.end, Effect::Overflow);
    assert_eq!(r.machine.ptr, 0);
    let r = run_ir(vec![BfIR::AddPtr(5), BfIR::SubPtr(6)], 64, &[]);
    assert_eq!(r.end, Effect::Overflow);
    assert_eq!(r.machine.ptr, 5);
    assert!(r.machine.cells.iter().all(|&cell| cell == 0));
}

#[test]
fn a_move_beyond_the_arena_is_an_overflow() {
    let r = run_ir(vec![BfIR::AddPtr(63)], 64, &[]);
    assert_eq!(r.end, Effect::Done);
    assert_eq!(r.machine.ptr, 63);
    let r = run_ir(vec![BfIR::AddPtr(64)], 64, &[]);
    assert_eq!(r.end, Effect::Overflow);
    assert_eq!(r.machine.ptr, 0);
    let r = run_ir(vec![BfIR::AddPtr(60), BfIR::AddPtr(u32::MAX)], 64, &[]);
    assert_eq!(r.end, Effect::Overflow);
    assert_eq!(r.machine.ptr, 60);
}

#[test]
fn an_overflow_stays_an_overflow() {
    let mut machine = Machine::new(compile("+<+").unwrap(), 8);
    assert_eq!(machine.step(), Effect::Continue);
    assert_eq!(machine.step(), Effect::Overflow);
    assert_eq!(machine.step(), Effect::Overflow);
    assert_eq!(machine.pc, 1);
    assert_eq!(machine.cells[0], 1);
}

#[test]
fn a_loop_that_counts_down_ends_at_zero() {
    for input in [&[][..], &[1, 2, 3][..], &[0xFF; 40][..]] {
        let r = run("+[-]", input);
        assert_eq!(r.end, Effect::Done);
        assert_eq!(r.machine.cells[0], 0);
        assert_eq!(r.output, vec![]);
    }
}

#[test]
fn the_end_stays_the_end() {
    let mut machine = Machine::new(compile("+").unwrap(), 8);
    assert_eq!(machine.step(), Effect::Continue);
    assert_eq!(machine.step(), Effect::Done);
    assert_eq!(machine.step(), Effect::Done);
    assert_eq!(machine.pc, 1);
    assert_eq!(machine.cells[0], 1);
}

#[test]
fn cells_wrap_at_256() {
    let r = run_ir(vec![BfIR::SubVal(1)], 8, &[]);
    assert_eq!(r.machine.cells[0], 255);
    let r = run_ir(vec![BfIR::AddVal(200), BfIR::AddVal(100)], 8, &[]);
    assert_eq!(r.machine.cells[0], 44);
    let r = run_ir(vec![BfIR::AddVal(3), BfIR::SubVal(250)], 8, &[]);
    assert_eq!(r.machine.cells[0], 9);
}

#[test]
fn input_is_echoed_until_it_ends() {
    let r = run(",[.,]", b"hello\0world");
    assert_eq!(r.end, Effect::Done);
    assert_eq!(r.output, b"hello".to_vec());
}

#[test]
fn a_read_at_the_end_keeps_the_last_byte() {
    let r = run(",.,.,.", b"ab");
    assert_eq!(r.end, Effect::Done);
    assert_eq!(r.output, b"abb".to_vec());
}

#[test]
fn a_loop_is_skipped_when_the_cell_is_zero() {
    let r = run("[+.]+.", &[]);
    assert_eq!(r.end, Effect::Done);
    assert_eq!(r.output, vec![1]);
}

#[test]
fn nested_loops_multiply() {
    let r = run("++++++[>+++++++<-]>.", &[]);
    assert_eq!(r.end, Effect::Done);
    assert_eq!(r.output, vec![42]);
    assert_eq!(r.machine.cells[0], 0);
    assert_eq!(r.machine.ptr, 1);
    let r = run("++[>++[>++<-]<-]>>.", &[]);
    assert_eq!(r.output, vec![8]);
}

#[test]
fn the_arena_is_kept_between_runs() {
    let mut machine = Machine::new(compile(">+++.").unwrap(), 8);
    let first = machine.run(&[], 100);
    assert_eq!(first.end, Effect::Done);
    assert_eq!(first.output, vec![3]);
    machine.rewind();
    assert_eq!(machine.pc, 0);
    assert_eq!(machine.ptr, 0);
    assert_eq!(machine.cells[1], 3);
    let second = machine.run(&[], 100);
    assert_eq!(second.end, Effect::Done);
    assert_eq!(second.output, vec![6]);
}

#[test]
fn a_new_machine_is_blank() {
    let machine = Machine::new(compile("+[-]").unwrap(), 16);
    assert_eq!(machine.pc, 0);
    assert_eq!(machine.ptr, 0);
    assert_eq!(machine.cells, vec![0; 16]);
    assert_eq!(machine.code, compile("+[-]").unwrap());
    assert_eq!(machine.jumps, vec![0, 3, 2, 1]);
}

#[test]
fn the_table_pairs_every_bracket() {
    let code = compile("[[,]+[.]]-[]").unwrap();
    assert_eq!(
        jump_table(&code),
        vec![8, 3, 2, 1, 4, 7, 6, 5, 0, 9, 11, 10]
    );
    assert_eq!(jump_table(&[]), vec![]);
}

#[test]
fn a_read_at_the_end_of_the_stream_leaves_the_cell() {
    assert_eq!(cell_after_read(7, None), 7);
    assert_eq!(cell_after_read(0, None), 0);
}

#[test]
fn a_read_stores_the_byte() {
    assert_eq!(cell_after_read(7, Some(65)), 65);
    assert_eq!(cell_after_read(7, Some(0)), 0);
}

#[test]
fn feeding_stores_in_the_current_cell_only() {
    let mut machine = Machine::new(compile(">,").unwrap(), 4);
    assert_eq!(machine.step(), Effect::Continue);
    assert_eq!(machine.step(), Effect::Read);
    machine.feed(Some(9));
    assert_eq!(machine.cells, vec![0, 9, 0, 0]);
    machine.feed(None);
    assert_eq!(machine.cells, vec![0, 9, 0, 0]);
    assert_eq!(machine.step(), Effect::Done);
}

#[test]
fn a_run_reports_what_it_read_and_wrote() {
    let mut machine = Machine::new(compile(",.,.").unwrap(), 4);
    let report = machine.run(b"xyz", 100);
    assert_eq!(
        report,
        Report {
            end: Effect::Done,
            consumed: 2,
            output: b"xy".to_vec(),
        }
    );
    let mut machine = Machine::new(compile(",,,").unwrap(), 4);
    let report = machine.run(b"x", 100);
    assert_eq!(report.end, Effect::Done);
    assert_eq!(report.consumed, 1);
    assert_eq!(machine.cells[0], b'x');
}

#[test]
fn a_run_stops_when_its_steps_are_used_up() {
    let mut machine = Machine::new(compile("+[.]").unwrap(), 4);
    let report = machine.run(&[], 7);
    assert_eq!(report.end, Effect::Continue);
    assert_eq!(report.output, vec![1, 1, 1]);
    let report = machine.run(&[], 2);
    assert_eq!(report.end, Effect::Continue);
    assert_eq!(report.output, vec![1]);
    let report = machine.run(&[], 0);
    assert_eq!(report.end, Effect::Continue);
    assert_eq!(report.output, vec![]);
}

#[test]
fn the_step_that_finds_the_end_is_counted() {
    let mut machine = Machine::new(compile("+.").unwrap(), 4);
    let report = machine.run(&[], 2);
    assert_eq!(report.end, Effect::Continue);
    assert_eq!(report.output, vec![1]);
    let report = machine.run(&[], 1);
    assert_eq!(report.end, Effect::Done);
    assert_eq!(report.output, vec![]);
}

#[test]
fn a_host_can_run_the_machine_step_by_step() {
    let mut machine = Machine::new(compile(",+.").unwrap(), 4);
    assert_eq!(machine.step(), Effect::Read);
    machine.feed(Some(41));
    assert_eq!(machine.step(), Effect::Continue);
    assert_eq!(machine.step(), Effect::Write(42));
    assert_eq!(machine.step(), Effect::Done);
}

#[test]
fn folding_keeps_what_a_program_does() {
    let plain = vec![
        BfIR::AddVal(200),
        BfIR::AddVal(100),
        BfIR::PutByte,
        BfIR::SubVal(30),
        BfIR::SubVal(250),
        BfIR::PutByte,
        BfIR::AddPtr(2),
        BfIR::AddPtr(3),
        BfIR::SubPtr(1),
        BfIR::SubPtr(1),
        BfIR::AddVal(255),
        BfIR::AddVal(255),
        BfIR::PutByte,
    ];
    let mut folded = plain.clone();
    bfvm::bfir::fold(&mut folded);
    assert_eq!(folded.len(), 8);
    let a = run_ir(plain, 8, &[]);
    let b = run_ir(folded, 8, &[]);
    assert_eq!(a.end, Effect::Done);
    assert_eq!(b.end, Effect::Done);
    assert_eq!(a.output, vec![44, 20, 254]);
    assert_eq!(b.output, a.output);
    assert_eq!(b.machine.cells, a.machine.cells);
    assert_eq!(b.machine.ptr, 3);
    assert_eq!(a.machine.ptr, 3);
}
