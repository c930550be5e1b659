use tapejit::execution::native::assembly::Assembly;
use tapejit::execution::native::codegen::{supported, CodeGeneration, CodegenError, NativeCodeGenBackend};
use tapejit::execution::native::executor::NativeExecutor;
use tapejit::execution::native::x64::{Abi, X64CodeGen};
use tapejit::syntax::{parse, Instruction};

const GETCHAR: i64 = 0x1122334455667788;
const PUTCHAR: i64 = 0x0102030405060708;

fn compiled(abi: Abi, nodes: &Vec<Instruction>) -> NativeExecutor {
    let generation = CodeGeneration::x86_x64(abi, GETCHAR, PUTCHAR).expect("an assembler");
    generation.generate(nodes).expect("code")
}


fn code_of_one_add_system_v() -> Vec<u8> {
    vec![
        0x48, 0x83, 0xEC, 0x20, 0x41, 0x54, 0x41, 0x55, 0x41, 0x56, 0x41, 0x57,
        0x49, 0x89, 0xFC, 0x49, 0x89, 0xF5, 0x49, 0x89, 0xD6, 0x4D, 0x89, 0xEF,
        0x41, 0x80, 0x07, 0x01, 0x48, 0xC7, 0xC0, 0x00, 0x00, 0x00, 0x00, 0x41,
        0x5F, 0x41, 0x5E, 0x41, 0x5D, 0x41, 0x5C, 0x48, 0x83, 0xC4, 0x20, 0xC3,
        0x48, 0xC7, 0xC0, 0x01, 0x00, 0x00, 0x00, 0x41, 0x5F, 0x41, 0x5E, 0x41,
        0x5D, 0x41, 0x5C, 0x48, 0x83, 0xC4, 0x20, 0xC3,
    ]
}

fn code_of_echo_system_v() -> Vec<u8> {
    vec![
        0x48, 0x83, 0xEC, 0x20, 0x41, 0x54, 0x41, 0x55, 0x41, 0x56, 0x41, 0x57,
        0x49, 0x89, 0xFC, 0x49, 0x89, 0xF5, 0x49, 0x89, 0xD6, 0x4D, 0x89, 0xEF,
        0x48, 0x83, 0xEC, 0x20, 0x41, 0x54, 0x41, 0x55, 0x41, 0x56, 0x41, 0x57,
        0x4C, 0x89, 0xE7, 0x4C, 0x89, 0xFE, 0x48, 0xB8, 0x88, 0x77, 0x66, 0x55,
        0x44, 0x33, 0x22, 0x11, 0xFF, 0xD0, 0x41, 0x5F, 0x41, 0x5E, 0x41, 0x5D,
        0x41, 0x5C, 0x48, 0x83, 0xC4, 0x20, 0x3C, 0x00, 0x0F, 0x85, 0x8C, 0x00,
        0x00, 0x00, 0x41, 0x80, 0x3F, 0x00, 0x0F, 0x84, 0x6E, 0x00, 0x00, 0x00,
        0x48, 0x83, 0xEC, 0x20, 0x41, 0x54, 0x41, 0x55, 0x41, 0x56, 0x41, 0x57,
        0x4C, 0x89, 0xE7, 0x4C, 0x89, 0xFE, 0x48, 0xB8, 0x08, 0x07, 0x06, 0x05,
        0x04, 0x03, 0x02, 0x01, 0xFF, 0xD0, 0x41, 0x5F, 0x41, 0x5E, 0x41, 0x5D,
        0x41, 0x5C, 0x48, 0x83, 0xC4, 0x20, 0x3C, 0x00, 0x0F, 0x85, 0x50, 0x00,
        0x00, 0x00, 0x48, 0x83, 0xEC, 0x20, 0x41, 0x54, 0x41, 0x55, 0x41, 0x56,
        0x41, 0x57, 0x4C, 0x89, 0xE7, 0x4C, 0x89, 0xFE, 0x48, 0xB8, 0x88, 0x77,
        0x66, 0x55, 0x44, 0x33, 0x22, 0x11, 0xFF, 0xD0, 0x41, 0x5F, 0x41, 0x5E,
        0x41, 0x5D, 0x41, 0x5C, 0x48, 0x83, 0xC4, 0x20, 0x3C, 0x00, 0x0F, 0x85,
        0x1E, 0x00, 0x00, 0x00, 0x41, 0x80, 0x3F, 0x00, 0x0F, 0x85, 0x92, 0xFF,
        0xFF, 0xFF, 0x48, 0xC7, 0xC0, 0x00, 0x00, 0x00, 0x00, 0x41, 0x5F, 0x41,
        0x5E, 0x41, 0x5D, 0x41, 0x5C, 0x48, 0x83, 0xC4, 0x20, 0xC3, 0x48, 0xC7,
        0xC0, 0x01, 0x00, 0x00, 0x00, 0x41, 0x5F, 0x41, 0x5E, 0x41, 0x5D, 0x41,
        0x5C, 0x48, 0x83, 0xC4, 0x20, 0xC3,
    ]
}

fn code_of_move_and_write_win64() -> Vec<u8> {
    vec![
        0x48, 0x83, 0xEC, 0x20, 0x41, 0x54, 0x41, 0x55, 0x41, 0x56, 0x41, 0x57,
        0x49, 0x89, 0xCC, 0x49, 0x89, 0xD5, 0x4D, 0x89, 0xC6, 0x4D, 0x89, 0xEF,
        0x49, 0x81, 0xC7, 0xFF, 0xFF, 0xFF, 0xFF, 0x48, 0x83, 0xEC, 0x20, 0x41,
        0x54, 0x41, 0x55, 0x41, 0x56, 0x41, 0x57, 0x4C, 0x89, 0xE1, 0x4C, 0x89,
        0xFA, 0x48, 0xB8, 0x08, 0x07, 0x06, 0x05, 0x04, 0x03, 0x02, 0x01, 0xFF,
        0xD0, 0x41, 0x5F, 0x41, 0x5E, 0x41, 0x5D, 0x41, 0x5C, 0x48, 0x83, 0xC4,
        0x20, 0x3C, 0x00, 0x0F, 0x85, 0x14, 0x00, 0x00, 0x00, 0x48, 0xC7, 0xC0,
        0x00, 0x00, 0x00, 0x00, 0x41, 0x5F, 0x41, 0x5E, 0x41, 0x5D, 0x41, 0x5C,
        0x48, 0x83, 0xC4, 0x20, 0xC3, 0x48, 0xC7, 0xC0, 0x01, 0x00, 0x00, 0x00,
        0x41, 0x5F, 0x41, 0x5E, 0x41, 0x5D, 0x41, 0x5C, 0x48, 0x83, 0xC4, 0x20,
        0xC3,
    ]
}

fn code_of_empty_program_win64() -> Vec<u8> {
    vec![
        0x48, 0x83, 0xEC, 0x20, 0x41, 0x54, 0x41, 0x55, 0x41, 0x56, 0x41, 0x57,
        0x49, 0x89, 0xCC, 0x49, 0x89, 0xD5, 0x4D, 0x89, 0xC6, 0x4D, 0x89, 0xEF,
        0x48, 0xC7, 0xC0, 0x00, 0x00, 0x00, 0x00, 0x41, 0x5F, 0x41, 0x5E, 0x41,
        0x5D, 0x41, 0x5C, 0x48, 0x83, 0xC4, 0x20, 0xC3, 0x48, 0xC7, 0xC0, 0x01,
        0x00, 0x00, 0x00, 0x41, 0x5F, 0x41, 0x5E, 0x41, 0x5D, 0x41, 0x5C, 0x48,
        0x83, 0xC4, 0x20, 0xC3,
    ]
}

fn code_of_set_and_big_move_system_v() -> Vec<u8> {
    vec![
        0x48, 0x83, 0xEC, 0x20, 0x41, 0x54, 0x41, 0x55, 0x41, 0x56, 0x41, 0x57,
        0x49, 0x89, 0xFC, 0x49, 0x89, 0xF5, 0x49, 0x89, 0xD6, 0x4D, 0x89, 0xEF,
        0x41, 0xC6, 0x07, 0x2A, 0x49, 0x81, 0xC7, 0x90, 0xEE, 0xFE, 0xFF, 0x41,
        0x80, 0x07, 0x80, 0x41, 0x80, 0x07, 0x7F, 0x48, 0xC7, 0xC0, 0x00, 0x00,
        0x00, 0x00, 0x41, 0x5F, 0x41, 0x5E, 0x41, 0x5D, 0x41, 0x5C, 0x48, 0x83,
        0xC4, 0x20, 0xC3, 0x48, 0xC7, 0xC0, 0x01, 0x00, 0x00, 0x00, 0x41, 0x5F,
        0x41, 0x5E, 0x41, 0x5D, 0x41, 0x5C, 0x48, 0x83, 0xC4, 0x20, 0xC3,
    ]
}

fn code_of_nested_loops_system_v() -> Vec<u8> {
    vec![
        0x48, 0x83, 0xEC, 0x20, 0x41, 0x54, 0x41, 0x55, 0x41, 0x56, 0x41, 0x57,
        0x49, 0x89, 0xFC, 0x49, 0x89, 0xF5, 0x49, 0x89, 0xD6, 0x4D, 0x89, 0xEF,
        0x41, 0x80, 0x3F, 0x00, 0x0F, 0x84, 0x29, 0x00, 0x00, 0x00, 0x41, 0x80,
        0x3F, 0x00, 0x0F, 0x84, 0x0E, 0x00, 0x00, 0x00, 0x41, 0x80, 0x07, 0xFF,
        0x41, 0x80, 0x3F, 0x00, 0x0F, 0x85, 0xF2, 0xFF, 0xFF, 0xFF, 0x49, 0x81,
        0xC7, 0x01, 0x00, 0x00, 0x00, 0x41, 0x80, 0x3F, 0x00, 0x0F, 0x85, 0xD7,
        0xFF, 0xFF, 0xFF, 0x48, 0xC7, 0xC0, 0x00, 0x00, 0x00, 0x00, 0x41, 0x5F,
        0x41, 0x5E, 0x41, 0x5D, 0x41, 0x5C, 0x48, 0x83, 0xC4, 0x20, 0xC3, 0x48,
        0xC7, 0xC0, 0x01, 0x00, 0x00, 0x00, 0x41, 0x5F, 0x41, 0x5E, 0x41, 0x5D,
        0x41, 0x5C, 0x48, 0x83, 0xC4, 0x20, 0xC3,
    ]
}

#[test]
fn one_add_system_v() {
    let executor = compiled(Abi::SystemV, &parse("+").unwrap());
    assert_eq!(executor.code(), code_of_one_add_system_v());
    assert_eq!(executor.code_start(), 0);
}

#[test]
fn echo_loop_system_v() {
    let executor = compiled(Abi::SystemV, &parse(",[.,]").unwrap());
    assert_eq!(executor.code(), code_of_echo_system_v());
}

#[test]
fn move_and_write_win64() {
    let executor = compiled(Abi::Win64, &parse("<.").unwrap());
    assert_eq!(executor.code(), code_of_move_and_write_win64());
}

#[test]
fn empty_program_win64() {
    let executor = compiled(Abi::Win64, &Vec::new());
    assert_eq!(executor.code(), code_of_empty_program_win64());
    assert_eq!(executor.code().len(), 64);
}

#[test]
fn set_and_operands_at_their_limits() {
    let nodes = vec![
        Instruction::SetCell { value: 42 },
        Instruction::Move { value: -70000 },
        Instruction::Add { value: -128 },
        Instruction::Add { value: 127 },
    ];
    let executor = compiled(Abi::SystemV, &nodes);
    assert_eq!(executor.code(), code_of_set_and_big_move_system_v());
}

#[test]
fn nested_loops_system_v() {
    let executor = compiled(Abi::SystemV, &parse("[[-]>]").unwrap());
    assert_eq!(executor.code(), code_of_nested_loops_system_v());
}

#[test]
fn loop_jumps_span_the_body() {
    let code = compiled(Abi::SystemV, &parse("[-]").unwrap()).code();
    // cmp BYTE [r15], 0; jz +14
    assert_eq!(&code[24..34], &[0x41, 0x80, 0x3F, 0x00, 0x0F, 0x84, 0x0E, 0x00, 0x00, 0x00]);
    // add BYTE [r15], -1
    assert_eq!(&code[34..38], &[0x41, 0x80, 0x07, 0xFF]);
    // cmp BYTE [r15], 0; jnz -14
    assert_eq!(&code[38..48], &[0x41, 0x80, 0x3F, 0x00, 0x0F, 0x85, 0xF2, 0xFF, 0xFF, 0xFF]);
}

#[test]
fn write_jumps_to_the_error_exit() {
    let code = compiled(Abi::SystemV, &parse(".").unwrap()).code();
    // prologue 24, write 50, exit 20, exit 20
    assert_eq!(code.len(), 114);
    // the jnz ends at 74; the error exit begins at 94
    assert_eq!(&code[68..74], &[0x0F, 0x85, 20, 0, 0, 0]);
    // mov rax, 0 at the normal exit and mov rax, 1 at the error exit
    assert_eq!(&code[74..81], &[0x48, 0xC7, 0xC0, 0, 0, 0, 0]);
    assert_eq!(&code[94..101], &[0x48, 0xC7, 0xC0, 1, 0, 0, 0]);
}

#[test]
fn read_and_write_call_their_own_targets() {
    let read = compiled(Abi::SystemV, &parse(",").unwrap()).code();
    let write = compiled(Abi::SystemV, &parse(".").unwrap()).code();
    assert_eq!(&read[42..44], &[0x48, 0xB8]);
    assert_eq!(&read[44..52], &GETCHAR.to_le_bytes());
    assert_eq!(&write[44..52], &PUTCHAR.to_le_bytes());
    assert_eq!(&read[52..54], &[0xFF, 0xD0]);
}

#[test]
fn executable_buffer_holds_the_code() {
    let executor = compiled(Abi::SystemV, &parse("+").unwrap());
    let held: &[u8] = executor.buffer();
    assert_eq!(held.to_vec(), code_of_one_add_system_v());
}

#[test]
fn executor_keeps_code_and_entry() {
    let executor = compiled(Abi::SystemV, &parse("+").unwrap());
    let again = NativeExecutor::finalized(None, 7);
    assert!(matches!(again, Err(CodegenError::FinalizeFailed)));
    assert_eq!(executor.code_start(), 0);
}

#[test]
fn backend_methods_append_in_order() {
    let backend = X64CodeGen { abi: Abi::SystemV, getchar: GETCHAR, putchar: PUTCHAR };
    let mut ops = Assembly::new().expect("an assembler");
    assert_eq!(ops.offset(), 0);
    let start = backend.generate_prolouge(&mut ops);
    assert_eq!(start, 0);
    assert_eq!(ops.offset(), 24);
    backend.generate_increment(&mut ops, 1);
    assert_eq!(ops.offset(), 28);
    backend.generate_cell_increment(&mut ops, 5);
    assert_eq!(ops.offset(), 35);
    backend.generate_set(&mut ops, 9);
    assert_eq!(ops.offset(), 39);
    backend.generate_write(&mut ops);
    assert_eq!(ops.offset(), 89);
    backend.generate_read(&mut ops);
    assert_eq!(ops.offset(), 139);
    backend.generate_loop(&mut ops, &Vec::new());
    assert_eq!(ops.offset(), 159);
    backend.generate_instruction(&mut ops, &Instruction::Add { value: -1 });
    assert_eq!(ops.offset(), 163);
    backend.generate_epilouge(&mut ops);
    assert_eq!(ops.offset(), 203);
    assert!(ops.fits());
    let code = ops.finalize().expect("code").to_vec();
    let nodes = vec![
        Instruction::Add { value: 1 },
        Instruction::Move { value: 5 },
        Instruction::SetCell { value: 9 },
        Instruction::Write,
        Instruction::Read,
        Instruction::Loop { nodes: Vec::new() },
        Instruction::Add { value: -1 },
    ];
    assert_eq!(code, compiled(Abi::SystemV, &nodes).code());
}

#[test]
fn assembly_appends_and_patches() {
    let mut ops = Assembly::new().expect("an assembler");
    ops.extend(&[1, 2, 3]);
    ops.push_i32(-2);
    ops.push_i64(0x0102030405060708);
    assert_eq!(ops.offset(), 15);
    ops.patch_i32(3, 0x11223344);
    let code = ops.finalize().expect("code").to_vec();
    assert_eq!(
        code,
        vec![1, 2, 3, 0x44, 0x33, 0x22, 0x11, 0x08, 0x07, 0x06, 0x05, 0x04, 0x03, 0x02, 0x01]
    );
}

#[test]
fn assembly_resolves_exits_to_the_label() {
    let mut ops = Assembly::new().expect("an assembler");
    ops.extend(&[0x90]);
    ops.push_exit();
    ops.extend(&[0x90, 0x90]);
    ops.push_exit();
    ops.extend(&[0x90]);
    let label = ops.offset();
    assert_eq!(label, 12);
    ops.resolve(label);
    assert!(ops.fits());
    let code = ops.finalize().expect("code").to_vec();
    assert_eq!(code, vec![0x90, 7, 0, 0, 0, 0x90, 0x90, 1, 0, 0, 0, 0x90]);
}

#[test]
fn assembly_resolves_backwards_too() {
    let mut ops = Assembly::new().expect("an assembler");
    ops.extend(&[0x90, 0x90]);
    ops.push_exit();
    ops.resolve(1);
    assert!(ops.fits());
    let code = ops.finalize().expect("code").to_vec();
    assert_eq!(code, vec![0x90, 0x90, 0xFB, 0xFF, 0xFF, 0xFF]);
}

#[test]
fn failed_assembly_gives_no_code() {
    let mut ops = Assembly::new().expect("an assembler");
    assert!(ops.fits());
    ops.fail();
    assert!(!ops.fits());
}

#[test]
fn only_x86_64_is_supported() {
    assert_eq!(supported("x86_64"), Ok(()));
    assert_eq!(supported("aarch64"), Err(CodegenError::UnsupportedArch));
    assert_eq!(supported("x86_65"), Err(CodegenError::UnsupportedArch));
    assert_eq!(supported("x86"), Err(CodegenError::UnsupportedArch));
    assert_eq!(supported(""), Err(CodegenError::UnsupportedArch));
    assert_eq!(supported("x86_64 "), Err(CodegenError::UnsupportedArch));
}

#[test]
fn no_assembler_gives_no_assembly() {
    assert!(Assembly::around(None).is_none());
}

#[test]
fn no_assembly_gives_no_generator() {
    let backend = X64CodeGen { abi: Abi::SystemV, getchar: GETCHAR, putchar: PUTCHAR };
    assert!(CodeGeneration::around(backend, None).is_none());
}

#[test]
fn generator_around_an_assembly_generates() {
    let backend = X64CodeGen { abi: Abi::SystemV, getchar: GETCHAR, putchar: PUTCHAR };
    let generation = CodeGeneration::around(backend, Assembly::new()).expect("a generator");
    let executor = generation.generate(&parse("+").unwrap()).expect("code");
    assert_eq!(executor.code(), code_of_one_add_system_v());
}

#[test]
fn an_empty_assembly_is_finalized_too() {
    let ops = Assembly::new().expect("an assembler");
    let code = ops.finalize().expect("code");
    assert_eq!(code.to_vec(), Vec::<u8>::new());
}
