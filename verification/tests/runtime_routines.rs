use furnace::backend::x86_64::encoder::Encoder;
use furnace::backend::x86_64::NativeX86Backend;
use furnace::ir::{BasicBlock, IrFunction, IrProgram, IrTerminator};

#[test]
fn print_str_routine_bytes() {
    let mut e = Encoder::new();
    e.emit_bytes(&[0x90, 0x90]);
    let start = e.emit_print_str_helper();
    assert_eq!(start, 2);
    let expected: Vec<u8> = vec![
        0x90, 0x90, 0x55, 0x48, 0x89, 0xE5, 0x48, 0x89, 0xFE, 0x48, 0xB9, 0x00, 0x00, 0x00, 0x00, 0x00,
        0x00, 0x00, 0x00, 0x80, 0x3C, 0x0E, 0x00, 0x0F, 0x84, 0x08, 0x00, 0x00, 0x00, 0x48, 0xFF, 0xC1,
        0xE9, 0xEE, 0xFF, 0xFF, 0xFF, 0x48, 0x89, 0xCA, 0x48, 0xBF, 0x01, 0x00, 0x00, 0x00, 0x00, 0x00,
        0x00, 0x00, 0x48, 0xB8, 0x01, 0x00, 0x00, 0x00, 0x00, 0x00, 0x00, 0x00, 0x0F, 0x05, 0xC9, 0xC3,
    ];
    assert_eq!(e.code, expected);
}

#[test]
fn pow_routine_bytes() {
    let mut e = Encoder::new();
    let start = e.emit_pow_int_helper();
    assert_eq!(start, 0);
    let expected: Vec<u8> = vec![
        0x55, 0x48, 0x89, 0xE5, 0x48, 0xB8, 0x01, 0x00, 0x00, 0x00, 0x00, 0x00, 0x00, 0x00, 0x49, 0xBA,
        0x00, 0x00, 0x00, 0x00, 0x00, 0x00, 0x00, 0x00, 0x4C, 0x39, 0xD6, 0x0F, 0x8E, 0x16, 0x00, 0x00,
        0x00, 0x48, 0x0F, 0xAF, 0xC7, 0x49, 0xBA, 0x01, 0x00, 0x00, 0x00, 0x00, 0x00, 0x00, 0x00, 0x4C,
        0x29, 0xD6, 0xE9, 0xD7, 0xFF, 0xFF, 0xFF, 0xC9, 0xC3,
    ];
    assert_eq!(e.code, expected);
}

#[test]
fn routine_lengths() {
    let mut e = Encoder::new();
    let a = e.emit_print_int_helper();
    let b = e.emit_print_int_inline_helper();
    let c = e.emit_input_int_helper();
    assert_eq!((a, b, c), (0, 203, 403));
    assert_eq!(e.code.len(), 563);
    // Both integer printers end with the same write-and-return tail.
    assert_eq!(e.code[166..203], e.code[366..403]);
    assert_eq!(e.code[202], 0xC3);
    assert_eq!(e.code[562], 0xC3);
}

#[test]
fn single_looping_main_compiles_to_its_frame_and_jump() {
    let ir = IrProgram {
        functions: vec![IrFunction {
            name: "Main".to_string(),
            param_names: vec![],
            blocks: vec![BasicBlock {
                label: "entry".to_string(),
                insts: vec![],
                terminator: IrTerminator::Jump("entry".to_string()),
            }],
        }],
    };
    let (code, offsets) = NativeX86Backend::new().compile_program(&ir).unwrap();
    assert_eq!(offsets, vec![("Main".to_string(), 0usize)]);
    assert_eq!(code.len(), 733);
    assert_eq!(code[0..11], [0x55, 0x48, 0x89, 0xE5, 0x48, 0x81, 0xEC, 0x30, 0, 0, 0]);
    assert_eq!(code[46..51], [0xE9, 0xFB, 0xFF, 0xFF, 0xFF]);
    // The string printing routine follows the function.
    assert_eq!(code[51..55], [0x55, 0x48, 0x89, 0xE5]);
}
