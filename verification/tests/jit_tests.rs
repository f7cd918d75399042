use bfvm::bfir::{compile, BfIR, CompileErrorKind};
use bfvm::bfjit::{generate, Hooks, BFVM, MEMORY_SIZE};
use bfvm::error::{vm_error, RuntimeError, VMError};

fn hooks() -> Hooks {
    Hooks {
        getbyte: 0x1111_1111_1111_1111,
        putbyte: 0x2222_2222_2222_2222,
        overflow: 0x3333_3333_3333_3333,
    }
}

fn image(code: &[BfIR], hooks: &Hooks) -> Vec<u8> {
    let (buf, start) = generate(code, hooks).unwrap();
    assert_eq!(start, 0);
    let bytes: &[u8] = &buf;
    bytes.to_vec()
}

#[test]
fn an_empty_program_is_entry_and_exit() {
    let expected: Vec<u8> = vec![
        0x50, 0x41, 0x54, 0x41, 0x55, 0x41, 0x56, 0x41, 0x57, 0x49, 0x89, 0xFC, 0x49, 0x89,
        0xF5, 0x49, 0x89, 0xD6, 0x48, 0x89, 0xF1, 0x48, 0x31, 0xC0, 0xE9, 0x0C, 0x00, 0x00,
        0x00, 0x48, 0xB8, 0x33, 0x33, 0x33, 0x33, 0x33, 0x33, 0x33, 0x33, 0xFF, 0xD0, 0x41,
        0x5F, 0x41, 0x5E, 0x41, 0x5D, 0x41, 0x5C, 0x5A, 0xC3,
    ];
    assert_eq!(image(&[], &hooks()), expected);
}

#[test]
fn a_loop_jumps_over_its_body_and_back() {
    let code = compile("+[-]").unwrap();
    let expected: Vec<u8> = vec![
        0x50, 0x41, 0x54, 0x41, 0x55, 0x41, 0x56, 0x41, 0x57, 0x49, 0x89, 0xFC, 0x49, 0x89,
        0xF5, 0x49, 0x89, 0xD6, 0x48, 0x89, 0xF1, 0x80, 0x01, 0x01, 0x80, 0x39, 0x00, 0x0F,
        0x84, 0x0C, 0x00, 0x00, 0x00, 0x80, 0x29, 0x01, 0x80, 0x39, 0x00, 0x0F, 0x85, 0xF4,
        0xFF, 0xFF, 0xFF, 0x48, 0x31, 0xC0, 0xE9, 0x0C, 0x00, 0x00, 0x00, 0x48, 0xB8, 0x33,
        0x33, 0x33, 0x33, 0x33, 0x33, 0x33, 0x33, 0xFF, 0xD0, 0x41, 0x5F, 0x41, 0x5E, 0x41,
        0x5D, 0x41, 0x5C, 0x5A, 0xC3,
    ];
    assert_eq!(image(&code, &hooks()), expected);
}

#[test]
fn reads_and_writes_call_their_own_hooks() {
    let hooks = Hooks {
        getbyte: 0x0102_0304_0506_0708,
        putbyte: 0x1112_1314_1516_1718,
        overflow: 0x2122_2324_2526_2728,
    };
    let expected: Vec<u8> = vec![
        0x50, 0x41, 0x54, 0x41, 0x55, 0x41, 0x56, 0x41, 0x57, 0x49, 0x89, 0xFC, 0x49, 0x89,
        0xF5, 0x49, 0x89, 0xD6, 0x48, 0x89, 0xF1, 0x49, 0x89, 0xCF, 0x4C, 0x89, 0xE7, 0x48,
        0x89, 0xCE, 0x48, 0xB8, 0x08, 0x07, 0x06, 0x05, 0x04, 0x03, 0x02, 0x01, 0xFF, 0xD0,
        0x48, 0x85, 0xC0, 0x0F, 0x85, 0x38, 0x00, 0x00, 0x00, 0x4C, 0x89, 0xF9, 0x49, 0x89,
        0xCF, 0x4C, 0x89, 0xE7, 0x48, 0x89, 0xCE, 0x48, 0xB8, 0x18, 0x17, 0x16, 0x15, 0x14,
        0x13, 0x12, 0x11, 0xFF, 0xD0, 0x48, 0x85, 0xC0, 0x0F, 0x85, 0x17, 0x00, 0x00, 0x00,
        0x4C, 0x89, 0xF9, 0x48, 0x31, 0xC0, 0xE9, 0x0C, 0x00, 0x00, 0x00, 0x48, 0xB8, 0x28,
        0x27, 0x26, 0x25, 0x24, 0x23, 0x22, 0x21, 0xFF, 0xD0, 0x41, 0x5F, 0x41, 0x5E, 0x41,
        0x5D, 0x41, 0x5C, 0x5A, 0xC3,
    ];
    assert_eq!(image(&[BfIR::GetByte, BfIR::PutByte], &hooks), expected);
}

#[test]
fn every_instruction_has_its_code() {
    let code = vec![
        BfIR::AddPtr(0x0102_0304),
        BfIR::SubPtr(0xFA0B_0C0D),
        BfIR::AddVal(0x7F),
        BfIR::SubVal(0x80),
        BfIR::GetByte,
        BfIR::PutByte,
        BfIR::Jz,
        BfIR::Jz,
        BfIR::AddVal(1),
        BfIR::Jnz,
        BfIR::Jnz,
    ];
    let expected: Vec<u8> = vec![
        0x50, 0x41, 0x54, 0x41, 0x55, 0x41, 0x56, 0x41, 0x57, 0x49, 0x89, 0xFC, 0x49, 0x89, 0xF5,
        0x49, 0x89, 0xD6, 0x48, 0x89, 0xF1, 0xB8, 0x04, 0x03, 0x02, 0x01, 0x48, 0x01, 0xC1, 0x0F,
        0x82, 0x97, 0x00, 0x00, 0x00, 0x4C, 0x39, 0xF1, 0x0F, 0x83, 0x8E, 0x00, 0x00, 0x00, 0xB8,
        0x0D, 0x0C, 0x0B, 0xFA, 0x48, 0x29, 0xC1, 0x0F, 0x82, 0x80, 0x00, 0x00, 0x00, 0x4C, 0x39,
        0xE9, 0x0F, 0x82, 0x77, 0x00, 0x00, 0x00, 0x80, 0x01, 0x7F, 0x80, 0x29, 0x80, 0x49, 0x89,
        0xCF, 0x4C, 0x89, 0xE7, 0x48, 0x89, 0xCE, 0x48, 0xB8, 0x11, 0x11, 0x11, 0x11, 0x11, 0x11,
        0x11, 0x11, 0xFF, 0xD0, 0x48, 0x85, 0xC0, 0x0F, 0x85, 0x5F, 0x00, 0x00, 0x00, 0x4C, 0x89,
        0xF9, 0x49, 0x89, 0xCF, 0x4C, 0x89, 0xE7, 0x48, 0x89, 0xCE, 0x48, 0xB8, 0x22, 0x22, 0x22,
        0x22, 0x22, 0x22, 0x22, 0x22, 0xFF, 0xD0, 0x48, 0x85, 0xC0, 0x0F, 0x85, 0x3E, 0x00, 0x00,
        0x00, 0x4C, 0x89, 0xF9, 0x80, 0x39, 0x00, 0x0F, 0x84, 0x1E, 0x00, 0x00, 0x00, 0x80, 0x39,
        0x00, 0x0F, 0x84, 0x0C, 0x00, 0x00, 0x00, 0x80, 0x01, 0x01, 0x80, 0x39, 0x00, 0x0F, 0x85,
        0xF4, 0xFF, 0xFF, 0xFF, 0x80, 0x39, 0x00, 0x0F, 0x85, 0xE2, 0xFF, 0xFF, 0xFF, 0x48, 0x31,
        0xC0, 0xE9, 0x0C, 0x00, 0x00, 0x00, 0x48, 0xB8, 0x33, 0x33, 0x33, 0x33, 0x33, 0x33, 0x33,
        0x33, 0xFF, 0xD0, 0x41, 0x5F, 0x41, 0x5E, 0x41, 0x5D, 0x41, 0x5C, 0x5A, 0xC3,
    ];
    assert_eq!(image(&code, &hooks()), expected);
}

#[test]
fn the_code_grows_by_a_fixed_size_for_each_instruction() {
    let base = image(&[], &hooks()).len();
    assert_eq!(base, 51);
    assert_eq!(image(&[BfIR::AddVal(1)], &hooks()).len(), base + 3);
    assert_eq!(image(&[BfIR::SubVal(1)], &hooks()).len(), base + 3);
    assert_eq!(image(&[BfIR::AddPtr(1)], &hooks()).len(), base + 23);
    assert_eq!(image(&[BfIR::SubPtr(1)], &hooks()).len(), base + 23);
    assert_eq!(image(&[BfIR::GetByte], &hooks()).len(), base + 33);
    assert_eq!(image(&[BfIR::PutByte], &hooks()).len(), base + 33);
    assert_eq!(image(&[BfIR::Jz, BfIR::Jnz], &hooks()).len(), base + 18);
}

#[test]
fn many_loops_link() {
    let mut src = String::new();
    for _ in 0..200 {
        src.push_str("[>+<-");
    }
    for _ in 0..200 {
        src.push_str("]");
    }
    src.push_str("[-][+][,][.]");
    let code = compile(&src).unwrap();
    let bytes = image(&code, &hooks());
    let mut expected_len = 51;
    for ir in &code {
        expected_len += match ir {
            BfIR::AddVal(_) | BfIR::SubVal(_) => 3,
            BfIR::AddPtr(_) | BfIR::SubPtr(_) => 23,
            BfIR::GetByte | BfIR::PutByte => 33,
            BfIR::Jz | BfIR::Jnz => 9,
        };
    }
    assert_eq!(bytes.len(), expected_len);
}

#[test]
fn a_new_machine_has_its_code_and_a_blank_arena() {
    let vm = BFVM::new("+[-]", &hooks(), true).unwrap();
    assert_eq!(vm.start, 0);
    assert_eq!(MEMORY_SIZE, 4 * 1024 * 1024);
    assert_eq!(vm.memory.len(), MEMORY_SIZE);
    assert!(vm.memory.iter().all(|&cell| cell == 0));
    let code = compile("+[-]").unwrap();
    let bytes: &[u8] = &vm.code;
    assert_eq!(bytes.to_vec(), image(&code, &hooks()));
}

#[test]
fn the_optimize_flag_changes_nothing() {
    let on = BFVM::new("+++>>[-]<", &hooks(), true).unwrap();
    let off = BFVM::new("+++>>[-]<", &hooks(), false).unwrap();
    let on_bytes: &[u8] = &on.code;
    let off_bytes: &[u8] = &off.code;
    assert_eq!(on_bytes, off_bytes);
    let folded = compile("+++>>[-]<").unwrap();
    assert_eq!(off_bytes.to_vec(), image(&folded, &hooks()));
}

#[test]
fn a_text_that_is_no_program_makes_no_machine() {
    match BFVM::new("+\n[[", &hooks(), true) {
        Err(VMError::Compile(e)) => {
            assert_eq!(e.kind, CompileErrorKind::UnclosedLeftBracket);
            assert_eq!(e.line, 2);
            assert_eq!(e.col, 2);
        }
        _ => panic!("expected a compile error"),
    }
    match BFVM::new("]", &hooks(), false) {
        Err(VMError::Compile(e)) => {
            assert_eq!(e.kind, CompileErrorKind::UnexpectedRightBracket);
            assert_eq!(e.line, 1);
            assert_eq!(e.col, 1);
        }
        _ => panic!("expected a compile error"),
    }
}

#[test]
fn a_runtime_error_is_wrapped_as_such() {
    assert!(matches!(
        vm_error(RuntimeError::PointerOverflow),
        VMError::Runtime(RuntimeError::PointerOverflow)
    ));
    let io = std::io::Error::from(std::io::ErrorKind::BrokenPipe);
    match vm_error(RuntimeError::IO(io)) {
        VMError::Runtime(RuntimeError::IO(e)) => {
            assert_eq!(e.kind(), std::io::ErrorKind::BrokenPipe)
        }
        _ => panic!("expected a runtime error"),
    }
}

#[test]
fn errors_convert_by_their_origin() {
    let io = std::io::Error::from(std::io::ErrorKind::NotFound);
    assert!(matches!(VMError::from(io), VMError::IO(_)));
    let io = std::io::Error::from(std::io::ErrorKind::NotFound);
    assert!(matches!(RuntimeError::from(io), RuntimeError::IO(_)));
    let fault = compile("]").unwrap_err();
    assert!(matches!(VMError::from(fault), VMError::Compile(e) if e == fault));
    assert!(matches!(
        VMError::from(RuntimeError::PointerOverflow),
        VMError::Runtime(RuntimeError::PointerOverflow)
    ));
}
