use vstd::prelude::*;

verus! {

/// `push rax`, `push r12`, `push r13`, `push r14`, `push r15`: aligns the stack for the
/// calls to come and saves the registers that a routine must hand back unchanged.
pub const SAVE: [u8; 9] = [0x50, 0x41, 0x54, 0x41, 0x55, 0x41, 0x56, 0x41, 0x57];

/// `mov r12, rdi`, `mov r13, rsi`, `mov r14, rdx`, `mov rcx, rsi`: keeps the context
/// handle and the two bounds of the arena, and sets the data pointer to the lower bound.
pub const TAKE_ARGUMENTS: [u8; 12] = [
    0x49, 0x89, 0xFC, 0x49, 0x89, 0xF5, 0x49, 0x89, 0xD6, 0x48, 0x89, 0xF1,
];

/// `mov eax, ..`, before its 32-bit operand. The upper half of `rax` becomes zero.
pub const MOV_EAX: [u8; 1] = [0xB8];

/// `add rcx, rax`
pub const ADD_RCX_RAX: [u8; 3] = [0x48, 0x01, 0xC1];

/// `sub rcx, rax`
pub const SUB_RCX_RAX: [u8; 3] = [0x48, 0x29, 0xC1];

/// Sets the flags for `rcx - r14`: the data pointer against the upper bound.
pub const TEST_UPPER: [u8; 3] = [0x4C, 0x39, 0xF1];

/// Sets the flags for `rcx - r13`: the data pointer against the lower bound.
pub const TEST_LOWER: [u8; 3] = [0x4C, 0x39, 0xE9];

/// `jmp`, before its 32-bit distance.
pub const JUMP: [u8; 1] = [0xE9];

/// `jc`, before its 32-bit distance: taken where an addition or subtraction wrapped
/// round.
pub const JUMP_IF_CARRY: [u8; 2] = [0x0F, 0x82];

/// `jb`, before its 32-bit distance: taken where the first operand was below the second.
pub const JUMP_IF_BELOW: [u8; 2] = [0x0F, 0x82];

/// `jnb`, before its 32-bit distance: taken where the first operand was not below the
/// second.
pub const JUMP_IF_NOT_BELOW: [u8; 2] = [0x0F, 0x83];

/// `jz`, before its 32-bit distance.
pub const JUMP_IF_ZERO: [u8; 2] = [0x0F, 0x84];

/// `jnz`, before its 32-bit distance.
pub const JUMP_IF_NOT_ZERO: [u8; 2] = [0x0F, 0x85];

/// The four bytes of a distance that is not known yet.
pub const DISTANCE: [u8; 4] = [0x00, 0x00, 0x00, 0x00];

/// `add byte [rcx], ..`, before its 8-bit operand.
pub const ADD_CELL: [u8; 2] = [0x80, 0x01];

/// `sub byte [rcx], ..`, before its 8-bit operand.
pub const SUB_CELL: [u8; 2] = [0x80, 0x29];

/// Sets the flags for the current cell against zero.
pub const TEST_CELL: [u8; 3] = [0x80, 0x39, 0x00];

/// `mov r15, rcx`, `mov rdi, r12`, `mov rsi, rcx`: keeps the data pointer where a call
/// leaves it alone, and passes the context handle and the data pointer.
pub const PASS_CELL: [u8; 9] = [0x49, 0x89, 0xCF, 0x4C, 0x89, 0xE7, 0x48, 0x89, 0xCE];

/// `mov rax, ..`, before its 64-bit operand.
pub const MOV_RAX: [u8; 2] = [0x48, 0xB8];

/// `call rax`
pub const CALL_RAX: [u8; 2] = [0xFF, 0xD0];

/// `test rax, rax`
pub const TEST_RAX: [u8; 3] = [0x48, 0x85, 0xC0];

/// `mov rcx, r15`: the data pointer as it was before a call.
pub const RESTORE_POINTER: [u8; 3] = [0x4C, 0x89, 0xF9];

/// `xor rax, rax`
pub const CLEAR_RAX: [u8; 3] = [0x48, 0x31, 0xC0];

/// `pop r15`, `pop r14`, `pop r13`, `pop r12`, `pop rdx`, `ret`: restores what `SAVE`
/// saved, drops the word that aligned the stack, and returns what `rax` holds.
pub const RESTORE_AND_RETURN: [u8; 10] = [
    0x41, 0x5F, 0x41, 0x5E, 0x41, 0x5D, 0x41, 0x5C, 0x5A, 0xC3,
];

} // verus!
